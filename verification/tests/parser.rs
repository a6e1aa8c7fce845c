use pdfboss_core::error::Error;
use pdfboss_core::lexer::Token;
use pdfboss_core::number::Real;
use pdfboss_core::object::{Name, ObjRef, Object, ObjectV};
use pdfboss_core::parser::{NoResolve, Parser, Resolve, MAX_NESTING_DEPTH};

/// A real with the value of a float.
fn float(v: f64) -> Real {
    Real { bits: v.to_bits() }
}

fn parse(data: &[u8]) -> Object {
    Parser::new(data).parse_object(&NoResolve).unwrap()
}

#[test]
fn atom_null_and_bools() {
    assert_eq!(parse(b"null"), Object::Null);
    assert_eq!(parse(b"true"), Object::Bool(true));
    assert_eq!(parse(b"false"), Object::Bool(false));
}

#[test]
fn atom_numbers() {
    assert_eq!(parse(b"42"), Object::Int(42));
    assert_eq!(parse(b"-17"), Object::Int(-17));
    assert_eq!(parse(b"+5"), Object::Int(5));
    assert_eq!(parse(b"3.5"), Object::Real(float(3.5)));
    assert_eq!(parse(b"-.25"), Object::Real(float(-0.25)));
}

#[test]
fn atom_strings() {
    assert_eq!(parse(b"(hello)"), Object::String(b"hello".to_vec()));
    assert_eq!(parse(b"<48690A>"), Object::String(b"Hi\n".to_vec()));
}

#[test]
fn atom_name() {
    assert_eq!(parse(b"/Type"), Object::Name(Name("Type".into())));
}

#[test]
fn nested_arrays_and_dicts() {
    let obj = parse(b"<< /A [1 2 [3]] /B << /C /D >> >>");
    let dict = obj.as_dict().unwrap();
    let a = dict.get_array("A").unwrap();
    assert_eq!(a[0], Object::Int(1));
    assert_eq!(a[1], Object::Int(2));
    assert_eq!(a[2], Object::Array(vec![Object::Int(3)]));
    let b = dict.get_dict("B").unwrap();
    assert_eq!(b.get_name("C"), Some(&Name("D".into())));
}

#[test]
fn reference_from_lookahead() {
    assert_eq!(parse(b"12 0 R"), Object::Ref(ObjRef { num: 12, gen: 0 }));
    assert_eq!(
        parse(b"[12 0 R 7 3 R]"),
        Object::Array(vec![
            Object::Ref(ObjRef { num: 12, gen: 0 }),
            Object::Ref(ObjRef { num: 7, gen: 3 }),
        ])
    );
}

#[test]
fn two_ints_without_r_stay_ints() {
    let mut p = Parser::new(b"12 0");
    assert_eq!(p.parse_object(&NoResolve).unwrap(), Object::Int(12));
    assert_eq!(p.parse_object(&NoResolve).unwrap(), Object::Int(0));
    assert_eq!(
        parse(b"[12 0]"),
        Object::Array(vec![Object::Int(12), Object::Int(0)])
    );
    let mut p = Parser::new(b"12 0 RG");
    assert_eq!(p.parse_object(&NoResolve).unwrap(), Object::Int(12));
    assert_eq!(p.parse_object(&NoResolve).unwrap(), Object::Int(0));
}

#[test]
fn indirect_round_trip() {
    let mut p = Parser::new(b"1 0 obj << /Type /Test /N 3 >> endobj");
    let (r, obj) = p.parse_indirect(&NoResolve).unwrap();
    assert_eq!(r, ObjRef { num: 1, gen: 0 });
    let dict = obj.as_dict().unwrap();
    assert_eq!(dict.get_name("Type"), Some(&Name("Test".into())));
    assert_eq!(dict.get_int("N"), Some(3));
    assert_eq!(p.next_token(), Token::Eof);
}

#[test]
fn stream_with_direct_length() {
    let mut p = Parser::new(b"<< /Length 5 >>\nstream\nhello\nendstream");
    let obj = p.parse_object(&NoResolve).unwrap();
    let s = obj.as_stream().unwrap();
    assert_eq!(s.data, b"hello");
    assert_eq!(p.next_token(), Token::Eof);
}

struct OneResolve(ObjRef, Object);

impl Resolve for OneResolve {
    fn resolved(&self, _: ObjRef) -> Option<ObjectV> {
        unreachable!("a model is only spoken of")
    }

    fn resolve_ref(&self, r: ObjRef) -> Option<Object> {
        if r == self.0 {
            Some(self.1.clone())
        } else {
            None
        }
    }
}

#[test]
fn stream_with_indirect_length() {
    let resolver = OneResolve(ObjRef { num: 9, gen: 0 }, Object::Int(7));
    let mut p = Parser::new(b"<< /Length 9 0 R >>stream\r\nhello!!\r\nendstream");
    let obj = p.parse_object(&resolver).unwrap();
    assert_eq!(obj.as_stream().unwrap().data, b"hello!!");
}

#[test]
fn stream_with_wrong_length_recovers() {
    let mut p = Parser::new(b"<< /Length 3 >>stream\nhello world\nendstream endobj");
    let obj = p.parse_object(&NoResolve).unwrap();
    assert_eq!(obj.as_stream().unwrap().data, b"hello world");
    assert_eq!(
        p.next_token(),
        Token::Keyword(b"endobj".to_vec())
    );
}

#[test]
fn stream_with_overlong_length_recovers() {
    let mut p = Parser::new(b"<< /Length 999 >>stream\nxy\r\nendstream");
    let obj = p.parse_object(&NoResolve).unwrap();
    assert_eq!(obj.as_stream().unwrap().data, b"xy");
}

#[test]
fn stream_without_length_recovers() {
    let mut p = Parser::new(b"<< /Type /XObject >>stream\nabc\nendstream");
    let obj = p.parse_object(&NoResolve).unwrap();
    let s = obj.as_stream().unwrap();
    assert_eq!(s.data, b"abc");
    assert_eq!(s.dict.get_name("Type"), Some(&Name("XObject".into())));
}

#[test]
fn stream_with_unresolvable_length_recovers() {
    let mut p = Parser::new(b"<< /Length 8 0 R >>stream\ndata\nendstream");
    let obj = p.parse_object(&NoResolve).unwrap();
    assert_eq!(obj.as_stream().unwrap().data, b"data");
}

#[test]
fn missing_endobj_accepted_at_next_obj() {
    let mut p = Parser::new(b"1 0 obj 42 2 0 obj (next) endobj");
    let (r1, o1) = p.parse_indirect(&NoResolve).unwrap();
    assert_eq!(r1, ObjRef { num: 1, gen: 0 });
    assert_eq!(o1, Object::Int(42));
    let (r2, o2) = p.parse_indirect(&NoResolve).unwrap();
    assert_eq!(r2, ObjRef { num: 2, gen: 0 });
    assert_eq!(o2, Object::String(b"next".to_vec()));
}

#[test]
fn missing_endobj_accepted_at_eof() {
    let mut p = Parser::new(b"5 0 obj << /A 1 >>");
    let (r, obj) = p.parse_indirect(&NoResolve).unwrap();
    assert_eq!(r, ObjRef { num: 5, gen: 0 });
    assert_eq!(obj.as_dict().unwrap().get_int("A"), Some(1));
}

#[test]
fn empty_indirect_body_is_null() {
    let mut p = Parser::new(b"3 1 obj endobj");
    let (r, obj) = p.parse_indirect(&NoResolve).unwrap();
    assert_eq!(r, ObjRef { num: 3, gen: 1 });
    assert_eq!(obj, Object::Null);
    assert_eq!(p.next_token(), Token::Eof);
}

#[test]
fn indirect_stream_object() {
    let data = b"4 0 obj << /Length 3 >> stream\nxyz\nendstream endobj";
    let mut p = Parser::new(data);
    let (r, obj) = p.parse_indirect(&NoResolve).unwrap();
    assert_eq!(r, ObjRef { num: 4, gen: 0 });
    assert_eq!(obj.as_stream().unwrap().data, b"xyz");
    assert_eq!(p.next_token(), Token::Eof);
}

#[test]
fn dict_value_reference() {
    let obj = parse(b"<< /Parent 6 0 R /Count 2 >>");
    let dict = obj.as_dict().unwrap();
    assert_eq!(dict.get_ref("Parent"), Some(ObjRef { num: 6, gen: 0 }));
    assert_eq!(dict.get_int("Count"), Some(2));
}

#[test]
fn deeply_nested_array_is_rejected_not_stack_overflow() {
    let mut data = vec![b'['; 200_000];
    data.extend(std::iter::repeat_n(b']', 200_000));
    let result = Parser::new(&data).parse_object(&NoResolve);
    assert!(matches!(result, Err(Error::Syntax { .. })));
}

#[test]
fn deeply_nested_dict_is_rejected_not_stack_overflow() {
    let mut data = Vec::new();
    for _ in 0..100_000 {
        data.extend_from_slice(b"<</K");
    }
    let result = Parser::new(&data).parse_object(&NoResolve);
    assert!(matches!(result, Err(Error::Syntax { .. })));
}

#[test]
fn nesting_within_the_limit_still_parses() {
    let mut data = vec![b'['; 100];
    data.extend_from_slice(b" 7 ");
    data.extend(std::iter::repeat_n(b']', 100));
    let mut obj = parse(&data);
    for _ in 0..100 {
        let items = obj.as_array().expect("nested array").to_vec();
        assert_eq!(items.len(), 1);
        obj = items.into_iter().next().unwrap();
    }
    assert_eq!(obj, Object::Int(7));
}

#[test]
fn the_nesting_limit_is_exact() {
    let nested = |depth: usize| {
        let mut data = vec![b'['; depth];
        data.extend(std::iter::repeat_n(b']', depth));
        Parser::new(&data).parse_object(&NoResolve)
    };
    assert!(nested(MAX_NESTING_DEPTH).is_ok());
    assert!(nested(MAX_NESTING_DEPTH + 2).is_err());
}

#[test]
fn malformed_objects_are_syntax_errors() {
    for (data, offset, text) in [
        (&b""[..], 0, "unexpected end of input"),
        (b" ]", 2, "unexpected `]`"),
        (b">>", 2, "unexpected `>>`"),
        (b"bogus", 5, "unexpected keyword `bogus`"),
        (b"\xFF", 1, "unexpected keyword `\u{FFFD}`"),
    ] {
        assert_eq!(
            Parser::new(data).parse_object(&NoResolve),
            Err(Error::Syntax { offset, msg: text.to_string() }),
            "{data:?}"
        );
    }
    for (data, offset, text) in [
        (&b"/A 0 obj 5 endobj"[..], 2, "expected object number"),
        (b"-1 0 obj 5 endobj", 2, "expected object number"),
        (b"1 70000 obj 5 endobj", 7, "expected generation number"),
        (b"1 0 obx 5 endobj", 7, "expected `obj`"),
    ] {
        assert_eq!(
            Parser::new(data).parse_indirect(&NoResolve),
            Err(Error::Syntax { offset, msg: text.to_string() }),
            "{data:?}"
        );
    }
}

#[test]
fn slips_in_containers_are_forgiven() {
    assert_eq!(parse(b"[1 2"), Object::Array(vec![Object::Int(1), Object::Int(2)]));
    let odd = parse(b"<< 1 /A 2 (x) /B >>");
    let dict = odd.as_dict().unwrap();
    assert_eq!(dict.len(), 2);
    assert_eq!(dict.get_int("A"), Some(2));
    assert_eq!(dict.get("B"), Some(&Object::Null));
    let unterminated = parse(b"<< >> stream\nrest of the input");
    assert_eq!(unterminated.as_stream().unwrap().data, b"rest of the input");
}

#[test]
fn a_cursor_can_be_moved() {
    let mut p = Parser::at(b"1 2 3", 2);
    assert_eq!(p.parse_object(&NoResolve).unwrap(), Object::Int(2));
    assert_eq!(p.pos(), 3);
    p.seek(0);
    assert_eq!(p.parse_object(&NoResolve).unwrap(), Object::Int(1));
}
