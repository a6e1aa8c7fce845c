use pdfboss_core::lexer::{
    hex_val, is_delimiter, is_regular, is_whitespace, parse_number_fast, Lexer, Token,
};
use pdfboss_core::number::Real;
use pdfboss_core::object::Name;

/// A real with the value of a float.
fn float(v: f64) -> Real {
    Real { bits: v.to_bits() }
}

fn toks(src: &[u8]) -> Vec<Token> {
    let mut lexer = Lexer::new(src);
    let mut out = Vec::new();
    loop {
        let token = lexer.next_token().expect("lexing must not fail");
        if token == Token::Eof {
            return out;
        }
        out.push(token);
    }
}

fn one(src: &[u8]) -> Token {
    let mut all = toks(src);
    assert_eq!(all.len(), 1, "expected exactly one token in {src:?}");
    all.pop().unwrap()
}

#[test]
fn numeric_forms() {
    assert_eq!(
        toks(b"+17 -98 34.5 -3.62 .5 4. -.002"),
        vec![
            Token::Int(17),
            Token::Int(-98),
            Token::Real(float(34.5)),
            Token::Real(float(-3.62)),
            Token::Real(float(0.5)),
            Token::Real(float(4.0)),
            Token::Real(float(-0.002)),
        ]
    );
    assert_eq!(one(b"0"), Token::Int(0));
    assert_eq!(one(b"123"), Token::Int(123));
    assert_eq!(one(b"0.0"), Token::Real(float(0.0)));
}

fn reference_number_token(run: &[u8]) -> Token {
    if !run
        .iter()
        .all(|&b| matches!(b, b'0'..=b'9' | b'+' | b'-' | b'.'))
    {
        return Token::Keyword(run.to_vec());
    }
    if let Ok(s) = std::str::from_utf8(run) {
        if !run.contains(&b'.') {
            if let Ok(value) = s.parse::<i64>() {
                return Token::Int(value);
            }
        }
        if let Ok(value) = s.parse::<f64>() {
            return Token::Real(float(value));
        }
    }
    let mut bytes = run.iter().copied();
    let negative = match run.first() {
        Some(b'-') => {
            bytes.next();
            true
        }
        Some(b'+') => {
            bytes.next();
            false
        }
        _ => false,
    };
    let mut digits = String::new();
    let mut seen_dot = false;
    for b in bytes {
        match b {
            b'0'..=b'9' => digits.push(char::from(b)),
            b'.' if !seen_dot => {
                seen_dot = true;
                digits.push('.');
            }
            _ => {}
        }
    }
    if seen_dot {
        let value = if digits == "." {
            0.0
        } else {
            digits.parse::<f64>().unwrap_or(0.0)
        };
        Token::Real(float(if negative { -value } else { value }))
    } else if digits.is_empty() {
        Token::Int(0)
    } else if let Ok(value) = digits.parse::<i64>() {
        Token::Int(if negative { -value } else { value })
    } else {
        let value = digits.parse::<f64>().unwrap_or(0.0);
        Token::Real(float(if negative { -value } else { value }))
    }
}

fn assert_number_matches_reference(src: &str) {
    let actual = one(src.as_bytes());
    let expected = reference_number_token(src.as_bytes());
    match (&actual, &expected) {
        (Token::Real(a), Token::Real(b)) => {
            assert_eq!(a.bits, b.bits, "f64 bits for {src:?}");
            assert_eq!(
                (f64::from_bits(a.bits) as f32).to_bits(),
                (f64::from_bits(b.bits) as f32).to_bits(),
                "f32 bits for {src:?}"
            );
        }
        _ => assert_eq!(actual, expected, "token for {src:?}"),
    }
}

#[test]
fn numeric_fast_path_matches_reference() {
    let corner_cases = [
        "0",
        "-0",
        "+0",
        "0.0",
        "-0.0",
        "+0.0",
        ".5",
        "5.",
        "-.5",
        "+.5",
        "-5.",
        "+5.",
        ".",
        "-.",
        "+.",
        "+",
        "-",
        "..",
        "-..",
        "1.2.3",
        "1-2",
        "--5",
        "+-3",
        "1..5",
        "1+",
        "9223372036854775807",
        "9223372036854775808",
        "-9223372036854775808",
        "-9223372036854775809",
        "18446744073709551615",
        "18446744073709551616",
        "184467440737095516150",
        "999999999999999999999999999999999999999",
        "400000000000000000000000000000000000000",
        "340282366920938463463374607431768211455",
        "-400000000000000000000000000000000000000",
        "0.0000000000000000000001",
        "0.00000000000000000000001",
        "5.0000000000000000000001",
        "1.00000000000000",
        "1.000000000000000",
        "1.0000000000000000000000000000",
        "123.4500000000000000000000",
        "12345678901234567890.12345",
        "0.1",
        "0.30000000000000004",
    ];
    let mut cases: Vec<String> = corner_cases.iter().map(|s| s.to_string()).collect();
    let digit_cycle = |n: usize| -> String {
        (0..n)
            .map(|i| char::from(b'1' + (i % 9) as u8))
            .collect::<String>()
    };
    let sig_counts = [1usize, 2, 7, 14, 15, 16, 17, 18, 19, 20, 21, 39];
    let frac_counts = [0usize, 1, 2, 7, 14, 15, 16, 21, 22, 23, 28, 38];
    for &sig in &sig_counts {
        let body = digit_cycle(sig);
        for &frac in &frac_counts {
            if frac > sig {
                continue;
            }
            let mut with_dot = body.clone();
            with_dot.insert(sig - frac, '.');
            for sign in ["", "+", "-"] {
                for lead in ["", "0", "0000000000000000"] {
                    cases.push(format!("{sign}{lead}{with_dot}"));
                    if frac == 0 {
                        cases.push(format!("{sign}{lead}{body}"));
                    }
                }
            }
        }
    }
    for case in &cases {
        assert_number_matches_reference(case);
    }
}

#[test]
fn lenient_numbers() {
    assert_eq!(one(b"--5"), Token::Int(-5));
    assert_eq!(one(b"+-3"), Token::Int(3));
    assert_eq!(one(b"1.2.3"), Token::Real(float(1.23)));
    assert_eq!(one(b"."), Token::Real(float(0.0)));
    assert_eq!(one(b"-"), Token::Int(0));
    assert_eq!(one(b"99999999999999999999"), Token::Real(float(1e20)));
    assert_eq!(one(b"1e5"), Token::Keyword(b"1e5".to_vec()));
}

#[test]
fn structural_delimiters() {
    assert_eq!(
        toks(b"[]<<>>"),
        vec![
            Token::ArrayOpen,
            Token::ArrayClose,
            Token::DictOpen,
            Token::DictClose,
        ]
    );
    assert_eq!(
        toks(b"<< /Type /Page >>"),
        vec![
            Token::DictOpen,
            Token::Name(Name("Type".into())),
            Token::Name(Name("Page".into())),
            Token::DictClose,
        ]
    );
}

#[test]
fn stray_delimiters_are_lenient_keywords() {
    assert_eq!(one(b")"), Token::Keyword(b")".to_vec()));
    assert_eq!(one(b"{"), Token::Keyword(b"{".to_vec()));
    assert_eq!(one(b"}"), Token::Keyword(b"}".to_vec()));
}

#[test]
fn names() {
    assert_eq!(one(b"/Name1"), Token::Name(Name("Name1".into())));
    assert_eq!(one(b"/A#42"), Token::Name(Name("AB".into())));
    assert_eq!(one(b"/Bad#zz"), Token::Name(Name("Bad#zz".into())));
    assert_eq!(
        one(b"/Lime#20Green"),
        Token::Name(Name("Lime Green".into()))
    );
    assert_eq!(
        one(b"/paired#28#29parentheses"),
        Token::Name(Name("paired()parentheses".into()))
    );
    assert_eq!(one(b"/A#6f"), Token::Name(Name("Ao".into())));
    assert_eq!(one(b"/A#4"), Token::Name(Name("A#4".into())));
    assert_eq!(one(b"/"), Token::Name(Name(String::new())));
    assert_eq!(
        toks(b"/A#4/B"),
        vec![
            Token::Name(Name("A#4".into())),
            Token::Name(Name("B".into())),
        ]
    );
}

#[test]
fn literal_string_basics() {
    assert_eq!(one(b"()"), Token::LitString(Vec::new()));
    assert_eq!(one(b"(hello)"), Token::LitString(b"hello".to_vec()));
    assert_eq!(one(b"(a(b)c)"), Token::LitString(b"a(b)c".to_vec()));
    assert_eq!(
        one(b"(deep(er(and(deeper))))"),
        Token::LitString(b"deep(er(and(deeper)))".to_vec())
    );
}

#[test]
fn literal_string_every_escape_form() {
    assert_eq!(
        one(b"(\\n\\r\\t\\b\\f\\(\\)\\\\)"),
        Token::LitString(vec![b'\n', b'\r', b'\t', 0x08, 0x0C, b'(', b')', b'\\'])
    );
    assert_eq!(one(b"(\\q)"), Token::LitString(b"q".to_vec()));
}

#[test]
fn literal_string_octal_escapes() {
    assert_eq!(one(b"(\\053)"), Token::LitString(b"+".to_vec()));
    assert_eq!(one(b"(\\53)"), Token::LitString(b"+".to_vec()));
    assert_eq!(one(b"(\\5)"), Token::LitString(vec![0x05]));
    assert_eq!(one(b"(\\0053)"), Token::LitString(vec![0x05, b'3']));
    assert_eq!(one(b"(\\400)"), Token::LitString(vec![0x00]));
    assert_eq!(one(b"(\\777)"), Token::LitString(vec![0xFF]));
    assert_eq!(one(b"(\\1x)"), Token::LitString(vec![0x01, b'x']));
}

#[test]
fn literal_string_line_continuations() {
    assert_eq!(one(b"(ab\\\ncd)"), Token::LitString(b"abcd".to_vec()));
    assert_eq!(one(b"(ab\\\rcd)"), Token::LitString(b"abcd".to_vec()));
    assert_eq!(one(b"(ab\\\r\ncd)"), Token::LitString(b"abcd".to_vec()));
}

#[test]
fn literal_string_eol_normalization() {
    assert_eq!(one(b"(a\nb)"), Token::LitString(b"a\nb".to_vec()));
    assert_eq!(one(b"(a\rb)"), Token::LitString(b"a\nb".to_vec()));
    assert_eq!(one(b"(a\r\nb)"), Token::LitString(b"a\nb".to_vec()));
}

#[test]
fn literal_string_unterminated_is_lenient() {
    assert_eq!(one(b"(abc"), Token::LitString(b"abc".to_vec()));
    assert_eq!(one(b"(abc\\"), Token::LitString(b"abc".to_vec()));
}

#[test]
fn hex_strings() {
    assert_eq!(one(b"<>"), Token::HexString(Vec::new()));
    assert_eq!(one(b"<901FA3>"), Token::HexString(vec![0x90, 0x1F, 0xA3]));
    assert_eq!(one(b"<901FA>"), Token::HexString(vec![0x90, 0x1F, 0xA0]));
    assert_eq!(
        one(b"<48 65\n6C\t6C 6F>"),
        Token::HexString(b"Hello".to_vec())
    );
    assert_eq!(
        one(b"<deadBEEF>"),
        Token::HexString(vec![0xDE, 0xAD, 0xBE, 0xEF])
    );
    assert_eq!(one(b"<41"), Token::HexString(vec![0x41]));
}

#[test]
fn comments() {
    assert_eq!(
        toks(b"1 % comment ( with ) delimiters <</junk>>\n2"),
        vec![Token::Int(1), Token::Int(2)]
    );
    assert_eq!(toks(b"%PDF-1.7\n42"), vec![Token::Int(42)]);
    assert_eq!(toks(b"% c\r7"), vec![Token::Int(7)]);
    assert_eq!(toks(b"5 % trailing"), vec![Token::Int(5)]);
    assert_eq!(toks(b"%%EOF"), Vec::new());
}

#[test]
fn keywords() {
    let src = b"obj endobj stream endstream R xref trailer startxref true false null n f";
    let expected: Vec<Token> = src
        .split(|&b| b == b' ')
        .map(|w| Token::Keyword(w.to_vec()))
        .collect();
    assert_eq!(toks(src), expected);
}

#[test]
fn indirect_reference_shape() {
    assert_eq!(
        toks(b"12 0 R"),
        vec![Token::Int(12), Token::Int(0), Token::Keyword(b"R".to_vec()),]
    );
}

#[test]
fn eof_behavior() {
    let mut lexer = Lexer::new(b"");
    assert_eq!(lexer.next_token().unwrap(), Token::Eof);
    assert_eq!(lexer.next_token().unwrap(), Token::Eof);

    let mut lexer = Lexer::new(b"  \t\r\n \x00\x0C ");
    assert_eq!(lexer.next_token().unwrap(), Token::Eof);

    let mut lexer = Lexer::new(b"1");
    assert_eq!(lexer.next_token().unwrap(), Token::Int(1));
    assert_eq!(lexer.next_token().unwrap(), Token::Eof);
    assert_eq!(lexer.next_token().unwrap(), Token::Eof);

    let mut lexer = Lexer::new(b"abc");
    lexer.seek(100);
    assert_eq!(lexer.next_token().unwrap(), Token::Eof);
}

#[test]
fn peek_does_not_consume() {
    let mut lexer = Lexer::new(b"/A 1");
    let before = lexer.pos();
    assert_eq!(lexer.peek_token().unwrap(), Token::Name(Name("A".into())));
    assert_eq!(lexer.pos(), before, "peek must not move the cursor");
    assert_eq!(lexer.peek_token().unwrap(), Token::Name(Name("A".into())));
    assert_eq!(lexer.next_token().unwrap(), Token::Name(Name("A".into())));
    assert_eq!(lexer.peek_token().unwrap(), Token::Int(1));
    assert_eq!(lexer.next_token().unwrap(), Token::Int(1));
    assert_eq!(lexer.peek_token().unwrap(), Token::Eof);
}

#[test]
fn seek_round_trips() {
    let src = b"[ /Key (val) 42 ]";
    let mut lexer = Lexer::new(src);
    assert_eq!(lexer.next_token().unwrap(), Token::ArrayOpen);
    let mark = lexer.pos();
    assert_eq!(lexer.next_token().unwrap(), Token::Name(Name("Key".into())));
    assert_eq!(
        lexer.next_token().unwrap(),
        Token::LitString(b"val".to_vec())
    );
    lexer.seek(mark);
    assert_eq!(lexer.next_token().unwrap(), Token::Name(Name("Key".into())));
    assert_eq!(
        lexer.next_token().unwrap(),
        Token::LitString(b"val".to_vec())
    );
    assert_eq!(lexer.next_token().unwrap(), Token::Int(42));
    assert_eq!(lexer.next_token().unwrap(), Token::ArrayClose);

    let mut resumed = Lexer::at(src, mark);
    assert_eq!(
        resumed.next_token().unwrap(),
        Token::Name(Name("Key".into()))
    );
    assert_eq!(resumed.data(), src);
}

#[test]
fn skip_whitespace_and_comments_stops_at_token() {
    let mut lexer = Lexer::new(b"  % one\n % two\r\n  7");
    lexer.skip_whitespace_and_comments();
    assert_eq!(lexer.data()[lexer.pos()], b'7');
    let pos = lexer.pos();
    lexer.skip_whitespace_and_comments();
    assert_eq!(lexer.pos(), pos);
}

#[test]
fn mixed_stream_of_tokens() {
    assert_eq!(
        toks(b"<</N 3/Root 1 0 R>>[(a)<62>/c true]"),
        vec![
            Token::DictOpen,
            Token::Name(Name("N".into())),
            Token::Int(3),
            Token::Name(Name("Root".into())),
            Token::Int(1),
            Token::Int(0),
            Token::Keyword(b"R".to_vec()),
            Token::DictClose,
            Token::ArrayOpen,
            Token::LitString(b"a".to_vec()),
            Token::HexString(b"b".to_vec()),
            Token::Name(Name("c".into())),
            Token::Keyword(b"true".to_vec()),
            Token::ArrayClose,
        ]
    );
}

#[test]
fn character_classes() {
    for b in [0x00u8, b'\t', b'\n', 0x0C, b'\r', b' '] {
        assert!(is_whitespace(b), "{b:#04x} should be whitespace");
        assert!(!is_regular(b));
    }
    for b in *b"()<>[]{}/%" {
        assert!(is_delimiter(b), "{} should be a delimiter", b as char);
        assert!(!is_regular(b));
    }
    for b in *b"aZ09+-.#_*'\"" {
        assert!(is_regular(b), "{} should be regular", b as char);
    }
}

#[test]
fn hexadecimal_digits_have_values() {
    assert_eq!(hex_val(b'0'), Some(0));
    assert_eq!(hex_val(b'9'), Some(9));
    assert_eq!(hex_val(b'a'), Some(10));
    assert_eq!(hex_val(b'F'), Some(15));
    assert_eq!(hex_val(b'g'), None);
    assert_eq!(hex_val(b' '), None);
}

#[test]
fn the_fast_path_leaves_what_it_cannot_do_exactly() {
    assert_eq!(parse_number_fast(b"12"), Some(Token::Int(12)));
    assert_eq!(parse_number_fast(b"-1.5"), Some(Token::Real(float(-1.5))));
    assert_eq!(parse_number_fast(b"99999999999999999999"), None);
    assert_eq!(parse_number_fast(b"1.2.3"), None);
    assert_eq!(parse_number_fast(b"1e5"), None);
}
