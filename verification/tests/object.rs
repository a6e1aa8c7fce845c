use pdfboss_core::number::Real;
use pdfboss_core::object::{
    decode_text_string, pdf_doc_char, Dict, Name, ObjRef, Object, Stream,
};

/// A real with the value of a float.
fn float(v: f64) -> Real {
    Real { bits: v.to_bits() }
}

fn name(s: &str) -> Name {
    Name(s.to_string())
}

#[test]
fn accessors_return_some_for_matching_variant() {
    assert_eq!(Object::Bool(true).as_bool(), Some(true));
    assert_eq!(Object::Bool(false).as_bool(), Some(false));
    assert_eq!(Object::Int(-7).as_int(), Some(-7));
    assert_eq!(Object::Real(float(1.5)).as_f64(), Some(float(1.5)));
    assert_eq!(
        Object::String(b"abc".to_vec()).as_str_bytes(),
        Some(b"abc".as_slice())
    );
    assert_eq!(Object::Name(name("Type")).as_name(), Some(&name("Type")));
    let arr = Object::Array(vec![Object::Int(1), Object::Null]);
    assert_eq!(arr.as_array().map(<[Object]>::len), Some(2));
    let mut d = Dict::new();
    d.insert(name("K"), Object::Int(9));
    assert_eq!(Object::Dict(d.clone()).as_dict(), Some(&d));
    let r = ObjRef { num: 12, gen: 3 };
    assert_eq!(Object::Ref(r).as_ref(), Some(r));
    assert!(Object::Null.is_null());
    assert!(!Object::Int(0).is_null());
}

#[test]
fn accessors_return_none_for_other_variants() {
    let o = Object::Int(1);
    assert_eq!(o.as_bool(), None);
    assert_eq!(o.as_str_bytes(), None);
    assert_eq!(o.as_name(), None);
    assert_eq!(o.as_array(), None);
    assert_eq!(o.as_dict(), None);
    assert_eq!(o.as_stream(), None);
    assert_eq!(o.as_ref(), None);
    assert_eq!(Object::Real(float(2.0)).as_int(), None);
    assert_eq!(Object::Bool(true).as_f64(), None);
    assert_eq!(Object::Null.as_f64(), None);
}

#[test]
fn as_f64_coerces_int() {
    assert_eq!(Object::Int(42).as_f64(), Some(float(42.0)));
    assert_eq!(Object::Int(-3).as_f64(), Some(float(-3.0)));
    assert_eq!(Object::Real(float(0.25)).as_f64(), Some(float(0.25)));
}

#[test]
fn as_dict_sees_stream_dict() {
    let mut d = Dict::new();
    d.insert(name("Length"), Object::Int(5));
    let s = Stream {
        dict: d.clone(),
        data: b"hello".to_vec(),
    };
    let o = Object::Stream(s.clone());
    assert_eq!(o.as_dict(), Some(&d));
    assert_eq!(o.as_stream(), Some(&s));
}

#[test]
fn dict_basic_operations() {
    let mut d = Dict::new();
    assert!(d.is_empty());
    assert_eq!(d.len(), 0);
    assert_eq!(d.insert(name("A"), Object::Int(1)), None);
    assert_eq!(
        d.insert(name("A"), Object::Int(2)),
        Some(Object::Int(1)),
        "insert returns the previous value"
    );
    d.insert(name("B"), Object::Bool(true));
    assert_eq!(d.len(), 2);
    assert!(!d.is_empty());
    assert_eq!(d.get("A"), Some(&Object::Int(2)));
    assert_eq!(d.get("Missing"), None);
    let mut keys: Vec<&str> = d.iter().into_iter().map(|(k, _)| k.0.as_str()).collect();
    keys.sort_unstable();
    assert_eq!(keys, vec!["A", "B"]);
    assert_eq!(d.remove("A"), Some(Object::Int(2)));
    assert_eq!(d.remove("A"), None);
    assert_eq!(d.len(), 1);
}

#[test]
fn dict_typed_helpers() {
    let mut inner = Dict::new();
    inner.insert(name("X"), Object::Null);
    let mut d = Dict::new();
    d.insert(name("Int"), Object::Int(7));
    d.insert(name("Real"), Object::Real(float(2.5)));
    d.insert(name("Name"), Object::Name(name("Page")));
    d.insert(name("Arr"), Object::Array(vec![Object::Int(1)]));
    d.insert(name("Dict"), Object::Dict(inner.clone()));
    d.insert(name("Ref"), Object::Ref(ObjRef { num: 4, gen: 0 }));

    assert_eq!(d.get_int("Int"), Some(7));
    assert_eq!(d.get_int("Real"), None, "reals do not coerce to int");
    assert_eq!(d.get_f64("Int"), Some(float(7.0)), "ints coerce to f64");
    assert_eq!(d.get_f64("Real"), Some(float(2.5)));
    assert_eq!(d.get_name("Name"), Some(&name("Page")));
    assert_eq!(d.get_array("Arr"), Some([Object::Int(1)].as_slice()));
    assert_eq!(d.get_dict("Dict"), Some(&inner));
    assert_eq!(d.get_ref("Ref"), Some(ObjRef { num: 4, gen: 0 }));

    assert_eq!(d.get_int("Nope"), None);
    assert_eq!(d.get_name("Int"), None);
    assert_eq!(d.get_array("Dict"), None);
    assert_eq!(d.get_dict("Arr"), None);
    assert_eq!(d.get_ref("Int"), None);
}

#[test]
fn decode_utf16be_with_bom() {
    assert_eq!(
        decode_text_string(&[0xFE, 0xFF, 0x00, 0x48, 0x00, 0x69]),
        "Hi"
    );
    assert_eq!(
        decode_text_string(&[0xFE, 0xFF, 0xD8, 0x34, 0xDD, 0x1E]),
        "\u{1D11E}"
    );
    assert_eq!(decode_text_string(&[0xFE, 0xFF]), "");
    assert_eq!(decode_text_string(&[0xFE, 0xFF, 0xD8, 0x34]), "\u{FFFD}");
    assert_eq!(
        decode_text_string(&[0xFE, 0xFF, 0x00, 0x48, 0x12]),
        "H\u{FFFD}"
    );
}

#[test]
fn decode_utf8_with_bom() {
    let mut bytes = vec![0xEF, 0xBB, 0xBF];
    bytes.extend_from_slice("héllo €".as_bytes());
    assert_eq!(decode_text_string(&bytes), "héllo €");
    assert_eq!(decode_text_string(&[0xEF, 0xBB, 0xBF]), "");
    assert_eq!(decode_text_string(&[0xEF, 0xBB, 0xBF, 0xFF]), "\u{FFFD}");
}

#[test]
fn decode_without_bom_uses_pdf_doc_encoding() {
    assert_eq!(decode_text_string(b"Hello"), "Hello");
    assert_eq!(decode_text_string(&[0x48, 0xE9]), "Hé");
    assert_eq!(decode_text_string(&[0xFF]), "ÿ");
    assert_eq!(decode_text_string(&[]), "");
    assert_eq!(decode_text_string(&[0xFE]), "\u{FE}");
}

#[test]
fn decode_pdf_doc_encoding_accents_at_0x18() {
    assert_eq!(
        decode_text_string(&[0x18, 0x19, 0x1A, 0x1B, 0x1C, 0x1D, 0x1E, 0x1F]),
        "\u{2D8}\u{2C7}\u{2C6}\u{2D9}\u{2DD}\u{2DB}\u{2DA}\u{2DC}"
    );
}

#[test]
fn decode_pdf_doc_encoding_punctuation_at_0x80() {
    assert_eq!(
        decode_text_string(&[0x80, 0x81, 0x82, 0x83, 0x84, 0x85, 0x86, 0x87]),
        "•†‡…—–ƒ⁄"
    );
    assert_eq!(
        decode_text_string(&[0x88, 0x89, 0x8A, 0x8B, 0x8C, 0x8D, 0x8E, 0x8F]),
        "‹›−‰„“”‘"
    );
    assert_eq!(
        decode_text_string(&[0x90, 0x91, 0x92, 0x93, 0x94, 0x95, 0x96, 0x97]),
        "’‚™ﬁﬂŁŒŠ"
    );
    assert_eq!(
        decode_text_string(&[0x98, 0x99, 0x9A, 0x9B, 0x9C, 0x9D, 0x9E]),
        "ŸŽıłœšž"
    );
    assert_eq!(decode_text_string(&[0xA0]), "€");
}

#[test]
fn decode_pdf_doc_encoding_agrees_with_latin1_elsewhere() {
    assert_eq!(
        decode_text_string(&[0x09, 0x0A, 0x0D, 0x20, 0x7E, 0xA1, 0xE9, 0xFE, 0xFF]),
        "\t\n\r ~¡éþÿ"
    );
}

#[test]
fn decode_pdf_doc_encoding_undefined_codes_are_replaced() {
    assert_eq!(decode_text_string(&[0x9F, 0xAD]), "\u{FFFD}\u{FFFD}");
    assert_eq!(decode_text_string(&[0x00, 0x7F]), "\u{FFFD}\u{FFFD}");
}

#[test]
fn clones_are_equal() {
    let items = [Object::Int(1), Object::Array(vec![Object::Name(name("A"))])];
    for item in &items {
        assert_eq!(item.clone(), *item);
    }
}

#[test]
fn codes_of_the_document_encoding_name_characters() {
    assert_eq!(pdf_doc_char(b'A'), Some('A'));
    assert_eq!(pdf_doc_char(0x18), Some('\u{2D8}'));
    assert_eq!(pdf_doc_char(0xA0), Some('\u{20AC}'));
    assert_eq!(pdf_doc_char(0x9F), None);
}

#[test]
fn the_root_names_what_the_modules_hold() {
    let name = pdfboss_core::Name("A".to_string());
    let object: pdfboss_core::Object = Object::Name(name);
    assert!(object.as_name().is_some());
    assert_eq!(pdfboss_core::LabelStyle::RomanUpper.numeral(4), "IV");
    assert_eq!(pdfboss_core::MAX_RESOLVE_DEPTH, 32);
}
