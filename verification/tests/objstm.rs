use pdfboss_core::object::Object;
use pdfboss_core::objstm::extract;

fn build_stream(objects: &[(u32, &str)]) -> (Vec<u8>, usize, usize) {
    let mut header = String::new();
    let mut bodies = String::new();
    for (num, body) in objects {
        header.push_str(&format!("{} {} ", num, bodies.len()));
        bodies.push_str(body);
        bodies.push(' ');
    }
    let first = header.len();
    header.push_str(&bodies);
    (header.into_bytes(), objects.len(), first)
}

/// The header and the whole payload of an object stream, the header on a line
/// of its own.
fn objstm_payload(objects: &[(u32, &str)]) -> (String, Vec<u8>) {
    let mut header = String::new();
    let mut bodies = String::new();
    for (num, body) in objects {
        header.push_str(&format!("{} {} ", num, bodies.len()));
        bodies.push_str(body);
        bodies.push(' ');
    }
    let payload = format!("{header}\n{bodies}").into_bytes();
    (header, payload)
}

#[test]
fn extracts_both_objects() {
    let (data, n, first) = build_stream(&[(11, "<< /A 1 >>"), (12, "(hi)")]);
    let obj0 = extract(&data, n, first, 0).unwrap();
    assert_eq!(obj0.as_dict().unwrap().get_int("A"), Some(1));
    let obj1 = extract(&data, n, first, 1).unwrap();
    assert_eq!(obj1, Object::String(b"hi".to_vec()));
}

#[test]
fn extracts_from_testkit_payload() {
    let (_, payload) = objstm_payload(&[(3, "[1 2 3]"), (9, "/Name")]);
    let n = 2;
    let first = payload.iter().position(|&b| b == b'\n').unwrap() + 1;
    let array = extract(&payload, n, first, 0).unwrap();
    assert_eq!(array.as_array().unwrap().len(), 3);
    let name = extract(&payload, n, first, 1).unwrap();
    assert_eq!(name.as_name().map(|nm| nm.0.as_str()), Some("Name"));
}

#[test]
fn index_out_of_range_errors() {
    let (data, n, first) = build_stream(&[(1, "true"), (2, "null")]);
    assert!(extract(&data, n, first, 2).is_err());
    assert!(extract(&data, n, first, u32::MAX).is_err());
}

#[test]
fn malformed_header_errors() {
    assert!(extract(b"/NotAnInt 0 true", 1, 12, 0).is_err());
    assert!(extract(b"5 -3 true", 1, 5, 0).is_err());
}

#[test]
fn offset_beyond_data_errors() {
    assert!(extract(b"1 999\ntrue", 1, 6, 0).is_err());
}
