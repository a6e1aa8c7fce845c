use flate2::read::ZlibDecoder;
use flate2::write::ZlibEncoder;
use flate2::Compression;
use pdfboss_core::error::{Error, Result};
use pdfboss_core::filters;
use pdfboss_core::filters::predictor::post_pass;
use pdfboss_core::filters::{
    bool_parm, int_parm, is_image_codec, is_pdf_whitespace, trailing_filter_with, Codec, Decoding,
    MAX_DECODED_LEN, MAX_FILTER_CHAIN,
};
use pdfboss_core::lexer::hex_val;
use pdfboss_core::number::Real;
use pdfboss_core::object::{Dict, Name, ObjRef, Object, ObjectV, Stream};
use pdfboss_core::parser::{NoResolve, Resolve};
use pdfboss_core::source::{resolve_sync_with, ObjectSource, SourceV};
use std::cell::Cell;
use std::collections::HashMap;
use std::io::{Read, Write};

/// A real with the value of a float.
fn float(v: f64) -> Real {
    Real { bits: v.to_bits() }
}

fn name(s: &str) -> Name {
    Name(s.to_string())
}

fn zlib(data: &[u8]) -> Vec<u8> {
    let mut enc = ZlibEncoder::new(Vec::new(), Compression::default());
    enc.write_all(data).unwrap();
    enc.finish().unwrap()
}

fn hex_encode(data: &[u8]) -> Vec<u8> {
    let mut out: Vec<u8> = data
        .iter()
        .flat_map(|b| format!("{b:02X}").into_bytes())
        .collect();
    out.push(b'>');
    out
}

fn unzlib(data: &[u8]) -> Result<Vec<u8>> {
    let mut out = Vec::new();
    let mut input = ZlibDecoder::new(data).take(MAX_DECODED_LEN as u64 + 1);
    match input.read_to_end(&mut out) {
        Ok(_) => Ok(out),
        Err(_) => Err(Error::Decode("flate".to_string())),
    }
}

fn unhex(data: &[u8]) -> Vec<u8> {
    let digits: Vec<u8> = data.iter().copied().filter_map(hex_val).collect();
    digits.chunks(2).map(|pair| pair[0] << 4 | pair.get(1).copied().unwrap_or(0)).collect()
}

/// Runs a chain to its end, with codecs for what it waits for.
fn decode_stream<R: Resolve>(stream: &Stream, resolver: &R) -> Result<Vec<u8>> {
    let mut state = filters::decode_stream(stream, resolver)?;
    loop {
        match state {
            Decoding::Done(data) => return Ok(data),
            Decoding::Waiting(waiting) => {
                let decoded = match waiting.codec {
                    Codec::Flate => post_pass(unzlib(&waiting.data)?, waiting.parms.as_ref())?,
                    Codec::AsciiHex => unhex(&waiting.data),
                    _ => return Err(Error::Other("no such codec here".to_string())),
                };
                state = waiting.resume(decoded)?;
            }
        }
    }
}

fn make_stream(entries: Vec<(&str, Object)>, data: &[u8]) -> Stream {
    let mut dict = Dict::new();
    for (k, v) in entries {
        dict.insert(name(k), v);
    }
    Stream {
        dict,
        data: data.to_vec(),
    }
}

fn make_dict(entries: Vec<(&str, Object)>) -> Dict {
    let mut dict = Dict::new();
    for (k, v) in entries {
        dict.insert(name(k), v);
    }
    dict
}

struct MapResolve(HashMap<(u32, u16), Object>);

impl Resolve for MapResolve {
    fn resolved(&self, _: ObjRef) -> Option<ObjectV> {
        unreachable!("a model is only spoken of")
    }

    fn resolve_ref(&self, r: ObjRef) -> Option<Object> {
        self.0.get(&(r.num, r.gen)).cloned()
    }
}

struct MapSource(HashMap<(u32, u16), Object>);

impl ObjectSource for MapSource {
    fn model(&self) -> SourceV {
        unreachable!("a model is only spoken of")
    }

    fn get(&self, r: ObjRef) -> Result<Object> {
        self.0
            .get(&(r.num, r.gen))
            .cloned()
            .ok_or_else(|| Error::Decode("missing object".into()))
    }

    fn stream_data(&self, s: &Stream) -> Result<Vec<u8>> {
        decode_stream(s, &NoResolve)
    }
}

#[test]
fn trailing_filter_reads_the_chain_like_decode_stream() {
    let raw: &[u8] = b"raw codestream bytes";
    let cases: Vec<(Object, Option<&str>)> = vec![
        (Object::Name(name("JPXDecode")), Some("JPXDecode")),
        (
            Object::Array(vec![Object::Name(name("JPXDecode")), Object::Null]),
            Some("JPXDecode"),
        ),
        (
            Object::Array(vec![Object::Ref(ObjRef { num: 7, gen: 0 })]),
            Some("JPXDecode"),
        ),
        (Object::Ref(ObjRef { num: 7, gen: 0 }), Some("JPXDecode")),
        (Object::Array(vec![Object::Null]), None),
        (Object::Int(3), None),
    ];
    let map = HashMap::from([((7u32, 0u16), Object::Name(name("JPXDecode")))]);
    for (filter, trailing) in cases {
        let s = make_stream(vec![("Filter", filter.clone())], raw);
        let decoded = decode_stream(&s, &MapResolve(map.clone())).expect("lenient");
        assert_eq!(decoded, raw, "every case leaves the data as stored");
        let src = MapSource(map.clone());
        let got = trailing_filter_with(&src, &s.dict);
        assert_eq!(
            got.as_ref().map(|n| n.0.as_str()),
            trailing,
            "trailing filter of {filter:?}"
        );
        assert_eq!(
            got.map(|n| is_image_codec(&n.0)).unwrap_or(false),
            trailing.is_some(),
            "passthrough recognition of {filter:?}"
        );
    }
}

/// Counts the values it is asked to resolve.
struct CountingSource {
    map: HashMap<(u32, u16), Object>,
    resolves: Cell<usize>,
}

impl ObjectSource for CountingSource {
    fn model(&self) -> SourceV {
        unreachable!("a model is only spoken of")
    }

    fn get(&self, r: ObjRef) -> Result<Object> {
        self.map
            .get(&(r.num, r.gen))
            .cloned()
            .ok_or_else(|| Error::Decode("missing object".into()))
    }

    fn stream_data(&self, s: &Stream) -> Result<Vec<u8>> {
        Ok(s.data.clone())
    }

    fn resolve(&self, o: &Object) -> Result<Object> {
        self.resolves.set(self.resolves.get() + 1);
        resolve_sync_with(self, o)
    }
}

#[test]
fn direct_filter_values_cost_the_gate_no_resolve() {
    let map = HashMap::from([((7u32, 0u16), Object::Name(name("JPXDecode")))]);
    let direct: Vec<(Object, Option<&str>)> = vec![
        (Object::Name(name("DCTDecode")), Some("DCTDecode")),
        (
            Object::Array(vec![
                Object::Name(name("FlateDecode")),
                Object::Name(name("DCTDecode")),
            ]),
            Some("DCTDecode"),
        ),
        (Object::Array(vec![Object::Null]), None),
        (Object::Int(3), None),
    ];
    for (filter, expected) in direct {
        let src = CountingSource {
            map: map.clone(),
            resolves: Cell::new(0),
        };
        let dict = make_dict(vec![("Filter", filter.clone())]);
        let got = trailing_filter_with(&src, &dict);
        assert_eq!(got.map(|n| n.0), expected.map(str::to_string));
        assert_eq!(
            src.resolves.get(),
            0,
            "direct value {filter:?} must not resolve"
        );
    }
    for filter in [
        Object::Ref(ObjRef { num: 7, gen: 0 }),
        Object::Array(vec![Object::Ref(ObjRef { num: 7, gen: 0 })]),
    ] {
        let src = CountingSource {
            map: map.clone(),
            resolves: Cell::new(0),
        };
        let dict = make_dict(vec![("Filter", filter)]);
        let got = trailing_filter_with(&src, &dict);
        assert_eq!(got.map(|n| n.0), Some("JPXDecode".to_string()));
        assert!(src.resolves.get() > 0);
    }
}

#[test]
fn deep_filter_ref_chains_decode_like_the_gate_reads_them() {
    let payload: &[u8] = b"BT (deep) Tj ET";
    let compressed = zlib(payload);
    let mut map = HashMap::new();
    for n in 1u32..9 {
        map.insert((n, 0u16), Object::Ref(ObjRef { num: n + 1, gen: 0 }));
    }
    map.insert((9, 0), Object::Name(name("FlateDecode")));
    let s = make_stream(
        vec![("Filter", Object::Ref(ObjRef { num: 1, gen: 0 }))],
        &compressed,
    );
    let src = MapSource(map.clone());
    let seen = trailing_filter_with(&src, &s.dict);
    assert_eq!(
        seen.map(|n| n.0),
        Some("FlateDecode".to_string()),
        "the chain is resolved to its end"
    );
    let decoded = decode_stream(&s, &MapResolve(map)).expect("decode");
    assert_eq!(
        decoded, payload,
        "the decoder chases /Filter as deep"
    );
}

#[test]
fn no_filter_returns_raw_data() {
    let s = make_stream(vec![], b"raw bytes");
    assert_eq!(decode_stream(&s, &NoResolve).unwrap(), b"raw bytes");
}

#[test]
fn null_filter_returns_raw_data() {
    let s = make_stream(vec![("Filter", Object::Null)], b"raw bytes");
    assert_eq!(decode_stream(&s, &NoResolve).unwrap(), b"raw bytes");
}

#[test]
fn empty_filter_array_returns_raw_data() {
    let s = make_stream(vec![("Filter", Object::Array(vec![]))], b"raw");
    assert_eq!(decode_stream(&s, &NoResolve).unwrap(), b"raw");
}

#[test]
fn single_name_filter_hex() {
    let s = make_stream(
        vec![("Filter", Object::Name(name("ASCIIHexDecode")))],
        b"48656C6C6F>",
    );
    assert_eq!(decode_stream(&s, &NoResolve).unwrap(), b"Hello");
}

#[test]
fn abbreviated_filter_names_accepted() {
    let s = make_stream(vec![("Filter", Object::Name(name("AHx")))], b"4869>");
    assert_eq!(decode_stream(&s, &NoResolve).unwrap(), b"Hi");
}

#[test]
fn chained_hex_then_flate() {
    let text = b"chained filters exercise the whole pipeline";
    let stored = hex_encode(&zlib(text));
    let s = make_stream(
        vec![(
            "Filter",
            Object::Array(vec![
                Object::Name(name("ASCIIHexDecode")),
                Object::Name(name("FlateDecode")),
            ]),
        )],
        &stored,
    );
    assert_eq!(decode_stream(&s, &NoResolve).unwrap(), text);
}

#[test]
fn decode_parms_single_dict_png_predictor() {
    let raw = [10u8, 20, 30, 40, 50, 60, 70, 80];
    let filtered = [2u8, 10, 20, 30, 40, 2, 40, 40, 40, 40];
    let parms = make_dict(vec![
        ("Predictor", Object::Int(12)),
        ("Columns", Object::Int(4)),
    ]);
    let s = make_stream(
        vec![
            ("Filter", Object::Name(name("FlateDecode"))),
            ("DecodeParms", Object::Dict(parms)),
        ],
        &zlib(&filtered),
    );
    assert_eq!(decode_stream(&s, &NoResolve).unwrap(), raw);
}

#[test]
fn decode_parms_array_aligns_with_filter_array() {
    let raw = [10u8, 20, 30, 40, 50, 60, 70, 80];
    let filtered = [2u8, 10, 20, 30, 40, 2, 40, 40, 40, 40];
    let stored = hex_encode(&zlib(&filtered));
    let parms = make_dict(vec![
        ("Predictor", Object::Int(12)),
        ("Columns", Object::Int(4)),
    ]);
    let s = make_stream(
        vec![
            (
                "Filter",
                Object::Array(vec![
                    Object::Name(name("ASCIIHexDecode")),
                    Object::Name(name("FlateDecode")),
                ]),
            ),
            (
                "DecodeParms",
                Object::Array(vec![Object::Null, Object::Dict(parms)]),
            ),
        ],
        &stored,
    );
    assert_eq!(decode_stream(&s, &NoResolve).unwrap(), raw);
}

#[test]
fn indirect_filter_and_parms_resolved() {
    let raw = [5u8, 7, 9, 11];
    let diffed = [5u8, 2, 2, 2];
    let parms = make_dict(vec![
        ("Predictor", Object::Int(2)),
        ("Colors", Object::Int(1)),
        ("Columns", Object::Ref(ObjRef { num: 7, gen: 0 })),
    ]);
    let mut map = HashMap::new();
    map.insert((5, 0), Object::Name(name("FlateDecode")));
    map.insert((6, 0), Object::Dict(parms));
    map.insert((7, 0), Object::Int(4));
    let resolver = MapResolve(map);
    let s = make_stream(
        vec![
            ("Filter", Object::Ref(ObjRef { num: 5, gen: 0 })),
            ("DecodeParms", Object::Ref(ObjRef { num: 6, gen: 0 })),
        ],
        &zlib(&diffed),
    );
    assert_eq!(decode_stream(&s, &resolver).unwrap(), raw);
}

#[test]
fn crypt_filter_is_unsupported() {
    let s = make_stream(vec![("Filter", Object::Name(name("Crypt")))], b"x");
    match decode_stream(&s, &NoResolve) {
        Err(Error::UnsupportedFilter(n)) => assert_eq!(n, "Crypt"),
        other => panic!("expected UnsupportedFilter, got {other:?}"),
    }
}

#[test]
fn unknown_filter_is_unsupported() {
    let s = make_stream(
        vec![("Filter", Object::Name(name("NotAFilterDecode")))],
        b"x",
    );
    match decode_stream(&s, &NoResolve) {
        Err(Error::UnsupportedFilter(n)) => assert_eq!(n, "NotAFilterDecode"),
        other => panic!("expected UnsupportedFilter, got {other:?}"),
    }
}

#[test]
fn dct_passthrough_when_last() {
    let jpeg = b"\xff\xd8pretend jpeg payload";
    let s = make_stream(vec![("Filter", Object::Name(name("DCTDecode")))], jpeg);
    assert_eq!(decode_stream(&s, &NoResolve).unwrap(), jpeg);
}

#[test]
fn flate_then_dct_passthrough() {
    let jpeg = b"\xff\xd8fake jpeg";
    let s = make_stream(
        vec![(
            "Filter",
            Object::Array(vec![
                Object::Name(name("FlateDecode")),
                Object::Name(name("DCTDecode")),
            ]),
        )],
        &zlib(jpeg),
    );
    assert_eq!(decode_stream(&s, &NoResolve).unwrap(), jpeg);
}

#[test]
fn dct_not_last_is_unsupported() {
    let s = make_stream(
        vec![(
            "Filter",
            Object::Array(vec![
                Object::Name(name("DCTDecode")),
                Object::Name(name("FlateDecode")),
            ]),
        )],
        b"x",
    );
    match decode_stream(&s, &NoResolve) {
        Err(Error::UnsupportedFilter(n)) => assert_eq!(n, "DCTDecode"),
        other => panic!("expected UnsupportedFilter, got {other:?}"),
    }
}

#[test]
fn jpx_passthrough_when_last() {
    let jp2 = b"\x00\x00\x00\x0cjP  \r\n\x87\n";
    let s = make_stream(vec![("Filter", Object::Name(name("JPXDecode")))], jp2);
    assert_eq!(decode_stream(&s, &NoResolve).unwrap(), jp2);
}

#[test]
fn flate_then_jpx_passthrough() {
    let jp2 = b"\x00\x00\x00\x0cjP  \r\n\x87\n";
    let s = make_stream(
        vec![(
            "Filter",
            Object::Array(vec![
                Object::Name(name("FlateDecode")),
                Object::Name(name("JPXDecode")),
            ]),
        )],
        &zlib(jp2),
    );
    assert_eq!(decode_stream(&s, &NoResolve).unwrap(), jp2);
}

#[test]
fn jpx_not_last_is_unsupported() {
    let s = make_stream(
        vec![(
            "Filter",
            Object::Array(vec![
                Object::Name(name("JPXDecode")),
                Object::Name(name("FlateDecode")),
            ]),
        )],
        b"x",
    );
    assert!(matches!(
        decode_stream(&s, &NoResolve),
        Err(Error::UnsupportedFilter(n)) if n == "JPXDecode"
    ));
}

#[test]
fn null_entries_in_filter_array_are_skipped() {
    let s = make_stream(
        vec![(
            "Filter",
            Object::Array(vec![Object::Null, Object::Name(name("ASCIIHexDecode"))]),
        )],
        b"4F4B>",
    );
    assert_eq!(decode_stream(&s, &NoResolve).unwrap(), b"OK");
}

#[test]
fn overlong_filter_chain_is_rejected() {
    let chain: Vec<Object> = (0..MAX_FILTER_CHAIN + 1)
        .map(|_| Object::Name(name("ASCIIHexDecode")))
        .collect();
    let s = make_stream(vec![("Filter", Object::Array(chain))], b"4869>");
    assert!(matches!(
        decode_stream(&s, &NoResolve),
        Err(Error::Decode(_))
    ));
}

#[test]
fn decompression_bomb_chain_is_rejected() {
    let mut enc = ZlibEncoder::new(Vec::new(), Compression::fast());
    let chunk = vec![0u8; 1 << 20];
    let mut remaining = MAX_DECODED_LEN + (1 << 20);
    while remaining > 0 {
        let n = remaining.min(chunk.len());
        enc.write_all(&chunk[..n]).unwrap();
        remaining -= n;
    }
    let inner = enc.finish().unwrap();
    let s = make_stream(
        vec![(
            "Filter",
            Object::Array(vec![
                Object::Name(name("FlateDecode")),
                Object::Name(name("FlateDecode")),
            ]),
        )],
        &zlib(&inner),
    );
    assert!(matches!(
        decode_stream(&s, &NoResolve),
        Err(Error::Decode(_))
    ));
}

#[test]
fn jbig2_not_last_is_unsupported() {
    let s = make_stream(
        vec![
            (
                "Filter",
                Object::Array(vec![
                    Object::Name(name("JBIG2Decode")),
                    Object::Name(name("FlateDecode")),
                ]),
            ),
            ("Width", Object::Int(8)),
            ("Height", Object::Int(8)),
        ],
        b"x",
    );
    assert!(matches!(
        decode_stream(&s, &NoResolve),
        Err(Error::UnsupportedFilter(n)) if n == "JBIG2Decode"
    ));
}

#[test]
fn int_parm_coercions() {
    let d = make_dict(vec![
        ("A", Object::Int(3)),
        ("B", Object::Real(float(2.9))),
        ("C", Object::Bool(true)),
        ("D", Object::Name(name("nope"))),
    ]);
    assert_eq!(int_parm(Some(&d), "A", 0), 3);
    assert_eq!(int_parm(Some(&d), "B", 0), 2);
    assert_eq!(int_parm(Some(&d), "C", 0), 1);
    assert_eq!(int_parm(Some(&d), "D", 7), 7);
    assert_eq!(int_parm(Some(&d), "missing", 7), 7);
    assert_eq!(int_parm(None, "A", 7), 7);
}

/// What a chain waits for first.
fn waits_for(s: &Stream) -> (Codec, Option<Dict>, Vec<u8>) {
    match filters::decode_stream(s, &NoResolve) {
        Ok(Decoding::Waiting(w)) => (w.codec, w.parms, w.data),
        Ok(Decoding::Done(data)) => panic!("done: {data:?}"),
        Err(e) => panic!("failed: {e:?}"),
    }
}

#[test]
fn a_chain_waits_for_every_codec_that_is_no_part_of_it() {
    for (filter, codec) in [
        ("FlateDecode", Codec::Flate),
        ("Fl", Codec::Flate),
        ("ASCIIHexDecode", Codec::AsciiHex),
        ("AHx", Codec::AsciiHex),
        ("ASCII85Decode", Codec::Ascii85),
        ("A85", Codec::Ascii85),
        ("CCITTFaxDecode", Codec::CcittFax),
        ("CCF", Codec::CcittFax),
        ("JBIG2Decode", Codec::Jbig2),
    ] {
        let s = make_stream(vec![("Filter", Object::Name(name(filter)))], b"abc");
        let (got, parms, data) = waits_for(&s);
        assert_eq!(got, codec, "{filter}");
        assert_eq!(parms, None);
        assert_eq!(data, b"abc");
    }
}

#[test]
fn a_chain_goes_on_with_what_a_codec_made() {
    let filter = Object::Array(vec![
        Object::Name(name("ASCII85Decode")),
        Object::Name(name("RunLengthDecode")),
        Object::Name(name("LZWDecode")),
    ]);
    let s = make_stream(vec![("Filter", filter)], b"~>");
    let waiting = match filters::decode_stream(&s, &NoResolve) {
        Ok(Decoding::Waiting(w)) => w,
        _ => panic!("the chain must wait"),
    };
    let runs = [5u8, 0x80, 0x10, 0x48, 0x50, 0x28, 0x08, 128].to_vec();
    match waiting.resume(runs) {
        Ok(Decoding::Done(data)) => assert_eq!(data, b"ABAB"),
        _ => panic!("the chain must end"),
    }
}

#[test]
fn a_codec_may_not_hand_on_too_much() {
    let s = make_stream(vec![("Filter", Object::Name(name("FlateDecode")))], b"");
    let waiting = match filters::decode_stream(&s, &NoResolve) {
        Ok(Decoding::Waiting(w)) => w,
        _ => panic!("the chain must wait"),
    };
    match waiting.resume(vec![0; MAX_DECODED_LEN + 1]) {
        Err(Error::Decode(msg)) => assert_eq!(msg, "decoded stream exceeds size limit"),
        _ => panic!("the chain must fail"),
    }
}

#[test]
fn an_overlong_chain_is_named_by_its_length() {
    let chain: Vec<Object> = (0..33).map(|_| Object::Name(name("RL"))).collect();
    let s = make_stream(vec![("Filter", Object::Array(chain))], b"");
    match filters::decode_stream(&s, &NoResolve) {
        Err(Error::Decode(msg)) => {
            assert_eq!(msg, "filter chain of 33 entries exceeds the limit of 32")
        }
        _ => panic!("the chain must be refused"),
    }
}

#[test]
fn boolean_parameters_are_coerced() {
    let d = make_dict(vec![
        ("A", Object::Bool(true)),
        ("B", Object::Int(0)),
        ("C", Object::Int(5)),
        ("D", Object::Real(float(1.0))),
    ]);
    assert!(bool_parm(Some(&d), "A", false));
    assert!(!bool_parm(Some(&d), "B", true));
    assert!(bool_parm(Some(&d), "C", false));
    assert!(bool_parm(Some(&d), "D", true));
    assert!(!bool_parm(None, "A", false));
}

#[test]
fn six_bytes_are_whitespace() {
    let found: Vec<u8> = (0..=255u8).filter(|b| is_pdf_whitespace(*b)).collect();
    assert_eq!(found, [0, 9, 10, 12, 13, 32]);
}

#[test]
fn two_filters_decode_like_one_after_the_other() {
    let plain = b"two filters in a row".to_vec();
    let mut runs = vec![plain.len() as u8 - 1];
    runs.extend_from_slice(&plain);
    runs.push(128);
    let stored = [hex_encode(&runs), zlib(&runs), zlib(&plain), runs.clone(), b"zz".to_vec()];
    let firsts = ["ASCIIHexDecode", "FlateDecode", "RunLengthDecode", "LZWDecode", "Nothing"];
    let seconds = ["RunLengthDecode", "ASCIIHexDecode", "FlateDecode", "DCTDecode", "Crypt"];
    for data in stored.iter() {
        for a in firsts {
            let one = make_stream(vec![("Filter", Object::Name(name(a)))], data);
            let one = decode_stream(&one, &NoResolve);
            for b in seconds {
                let filters = vec![Object::Name(name(a)), Object::Name(name(b))];
                let both = make_stream(vec![("Filter", Object::Array(filters))], data);
                let both = decode_stream(&both, &NoResolve);
                let in_turn = match &one {
                    Ok(bytes) => {
                        let next = make_stream(vec![("Filter", Object::Name(name(b)))], bytes);
                        format!("{:?}", decode_stream(&next, &NoResolve))
                    }
                    Err(e) => format!("Err({e:?})"),
                };
                assert_eq!(format!("{both:?}"), in_turn, "{a} then {b}");
            }
        }
    }
    let hex = make_stream(
        vec![(
            "Filter",
            Object::Array(vec![
                Object::Name(name("ASCIIHexDecode")),
                Object::Name(name("RunLengthDecode")),
            ]),
        )],
        &stored[0],
    );
    assert_eq!(decode_stream(&hex, &NoResolve).unwrap(), plain);
}
