use pdfboss_core::filters::jbig2::bitmap::{Bitmap, CombOp};
use pdfboss_core::filters::jbig2::budget::Budget;
use pdfboss_core::lexer::{Lexer, Token};
use pdfboss_core::linearization::{linearization_dictionary, LINEARIZATION_WINDOW};
use pdfboss_core::number::Real;
use pdfboss_core::object::{decode_text_string, Dict, Name, ObjRef, Object, Stream};
use pdfboss_core::objstm::extract;
use pdfboss_core::parser::{NoResolve, Parser};

fn write_string(bytes: &[u8]) -> Vec<u8> {
    let mut out = vec![b'('];
    for &b in bytes {
        match b {
            b'(' | b')' | b'\\' => out.extend([b'\\', b]),
            b'\r' => out.extend(b"\\r"),
            _ => out.push(b),
        }
    }
    out.push(b')');
    out
}

fn write_name(bytes: &[u8]) -> Vec<u8> {
    let mut out = vec![b'/'];
    for &b in bytes {
        let plain = b.is_ascii_graphic() && !b"()<>[]{}/%#".contains(&b);
        if plain {
            out.push(b);
        } else {
            out.extend(format!("#{b:02X}").into_bytes());
        }
    }
    out
}

fn write_hex(bytes: &[u8]) -> Vec<u8> {
    let digits: String = bytes.iter().map(|b| format!("{b:02X}")).collect();
    format!("<{digits}>").into_bytes()
}

fn name(s: &str) -> Name {
    Name(s.to_string())
}

fn write_object(o: &Object) -> Vec<u8> {
    match o {
        Object::Null => b"null".to_vec(),
        Object::Bool(b) => format!("{b}").into_bytes(),
        Object::Int(v) => format!("{v}").into_bytes(),
        Object::Name(n) => write_name(n.0.as_bytes()),
        Object::String(s) => write_string(s),
        Object::Ref(r) => format!("{} {} R", r.num, r.gen).into_bytes(),
        Object::Array(items) => {
            let mut out = vec![b'['];
            for item in items {
                out.push(b' ');
                out.extend(write_object(item));
            }
            out.extend(b" ]");
            out
        }
        Object::Dict(d) => {
            let mut out = b"<<".to_vec();
            for (key, value) in d.iter() {
                out.push(b' ');
                out.extend(write_name(key.0.as_bytes()));
                out.push(b' ');
                out.extend(write_object(value));
            }
            out.extend(b" >>");
            out
        }
        other => panic!("not written here: {other:?}"),
    }
}

fn first_token(data: &[u8]) -> (Token, usize) {
    let mut lexer = Lexer::new(data);
    let token = lexer.next_token().unwrap();
    (token, lexer.pos())
}

/// A tree with every kind of object but streams and reals.
fn tree() -> Object {
    let mut inner = Dict::new();
    inner.insert(name("Key with space"), Object::Null);
    inner.insert(name("Ref"), Object::Ref(ObjRef { num: 12, gen: 3 }));
    let mut outer = Dict::new();
    outer.insert(name("Inner"), Object::Dict(inner));
    outer.insert(
        name("Items"),
        Object::Array(vec![
            Object::Int(1),
            Object::Int(2),
            Object::Ref(ObjRef { num: 4_294_967_295, gen: 65_535 }),
            Object::Int(-7),
            Object::Bool(true),
            Object::Bool(false),
            Object::String(b"a(b\\c)\r\n".to_vec()),
            Object::Array(Vec::new()),
        ]),
    );
    Object::Dict(outer)
}

#[test]
fn strings_of_every_byte_read_back() {
    let bytes: Vec<u8> = (0..=255).collect();
    let data = write_string(&bytes);
    assert_eq!(first_token(&data), (Token::LitString(bytes), data.len()));
}

#[test]
fn hex_strings_of_every_byte_read_back() {
    let bytes: Vec<u8> = (0..=255).collect();
    let data = write_hex(&bytes);
    assert_eq!(first_token(&data), (Token::HexString(bytes), data.len()));
}

#[test]
fn names_of_every_ascii_byte_read_back() {
    let text: String = (0..128u8).map(char::from).collect();
    let mut data = write_name(text.as_bytes());
    let len = data.len();
    data.push(b' ');
    assert_eq!(first_token(&data), (Token::Name(Name(text)), len));
}

#[test]
fn integers_read_back_to_the_last() {
    for v in [0, 1, -1, 9, 10, -10, i64::MAX, i64::MIN, i64::MAX - 1, i64::MIN + 1] {
        let data = format!("{v}]").into_bytes();
        assert_eq!(first_token(&data), (Token::Int(v), data.len() - 1));
    }
}

#[test]
fn objects_of_every_kind_read_back() {
    let o = tree();
    let data = write_object(&o);
    let mut parser = Parser::new(&data);
    assert_eq!(parser.parse_object(&NoResolve).unwrap(), o);
    assert_eq!(parser.pos(), data.len());
}

#[test]
fn indirect_objects_read_back_with_their_reference() {
    let o = tree();
    let mut data = b"17 2 obj ".to_vec();
    data.extend(write_object(&o));
    data.extend(b" endobj");
    let mut parser = Parser::new(&data);
    let (r, found) = parser.parse_indirect(&NoResolve).unwrap();
    assert_eq!((r, found), (ObjRef { num: 17, gen: 2 }, o));
    assert_eq!(parser.pos(), data.len());
}

#[test]
fn stream_data_may_hold_the_word_that_ends_it() {
    let body: &[u8] = b"one endstream two >> ]";
    let mut dict = Dict::new();
    dict.insert(name("Length"), Object::Int(body.len() as i64));
    let mut data = write_object(&Object::Dict(dict.clone()));
    data.extend(b" stream\n");
    data.extend(body);
    data.extend(b"\nendstream");
    let mut parser = Parser::new(&data);
    let found = parser.parse_object(&NoResolve).unwrap();
    assert_eq!(found, Object::Stream(Stream { dict, data: body.to_vec() }));
    assert_eq!(parser.pos(), data.len());
}

#[test]
fn object_streams_give_back_each_object() {
    let objects = [Object::Int(1), tree(), Object::Name(name("Last"))];
    let mut bodies = Vec::new();
    let mut header = Vec::new();
    for (i, o) in objects.iter().enumerate() {
        header.extend(format!(" {} {}", 10 + i, bodies.len()).into_bytes());
        bodies.extend(write_object(o));
        bodies.push(b'\n');
    }
    header.push(b' ');
    let first = header.len();
    header.extend(bodies);
    for (i, o) in objects.iter().enumerate() {
        assert_eq!(extract(&header, objects.len(), first, i as u32).unwrap(), *o);
    }
}

#[test]
fn small_integers_survive_as_reals() {
    let limit: i64 = 1 << 53;
    for v in [0, 1, -1, 1000, limit - 1, 1 - limit] {
        assert_eq!(Real::from_int(v).to_i64(), v);
    }
}

#[test]
fn utf_16_text_reads_back() {
    let text = "caf\u{E9} \u{20AC} \u{1D11E}";
    let mut bytes = vec![0xFE, 0xFF];
    for unit in text.encode_utf16() {
        bytes.extend(unit.to_be_bytes());
    }
    assert_eq!(decode_text_string(&bytes), text);
}

#[test]
fn charges_add_up_to_the_limit() {
    let mut budget = Budget::with_limit(10);
    assert!(budget.charge(4).is_ok());
    assert!(budget.charge(7).is_err());
    assert!(budget.charge(6).is_ok());
    assert!(budget.charge(1).is_err());
    assert!(budget.charge(0).is_ok());
}

#[test]
fn drawing_twice_with_or_is_drawing_once() {
    let mut mark = Bitmap::new(2, 2);
    mark.set(0, 0, 1);
    mark.set(1, 1, 1);
    let mut once = Bitmap::new(4, 4);
    once.combine(&mark, 1, 1, CombOp::Or);
    let mut twice = once.clone();
    twice.combine(&mark, 1, 1, CombOp::Or);
    for y in 0..4 {
        for x in 0..4 {
            assert_eq!(once.get(x, y), twice.get(x, y));
            assert_eq!(once.get(x, y), u8::from((x, y) == (1, 1) || (x, y) == (2, 2)));
        }
    }
}

#[test]
fn what_stands_behind_the_window_makes_no_difference() {
    let mut head = b"%PDF-1.4\n1 0 obj << /Linearized 1 /L 5 /H [1 2] /O 3 /E 4 /N 5 /T 6 >> endobj "
        .to_vec();
    assert!(linearization_dictionary(&head).is_some());
    head.resize(LINEARIZATION_WINDOW, b' ');
    let short = linearization_dictionary(&head);
    head.extend(b"garbage ((( <<");
    let long = linearization_dictionary(&head);
    assert!(short.is_some());
    assert_eq!(short, long);

    let mut late = vec![b' '; LINEARIZATION_WINDOW];
    late.extend(b"1 0 obj << /Linearized 1 /L 5 /H [1 2] /O 3 /E 4 /N 5 /T 6 >> endobj ");
    assert!(linearization_dictionary(&late).is_none());
}
