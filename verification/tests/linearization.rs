use pdfboss_core::linearization::{linearization_dictionary, Linearization};
use pdfboss_core::number::Real;

/// A real with the value of a float.
fn float(v: f64) -> Real {
    Real { bits: v.to_bits() }
}

const HEAD: &[u8] = b"%PDF-1.4\n%\xe2\xe3\xcf\xd3\n43 0 obj\n<< /Linearized 1 /L 12345 /H [ 500 200 ] /O 45 /E 3000 /N 3 /T 11000 /P 2 >>\nendobj\n44 0 obj\n<< /Type /Catalog >>\nendobj\n";

#[test]
fn reads_every_entry_of_the_linearization_parameter_dictionary() {
    let record = linearization_dictionary(HEAD).unwrap();
    assert_eq!(
        record,
        Linearization {
            version: float(1.0),
            file_length: 12345,
            hint_streams: vec![(500, 200)],
            first_page_object: 45,
            first_page_end: 3000,
            page_count: 3,
            main_xref_offset: 11000,
            first_page: 2,
        }
    );
}

#[test]
fn the_first_page_number_defaults_to_zero_and_an_overflow_hint_stream_is_read() {
    let head = b"%PDF-1.5\n7 0 obj\n<< /Linearized 1.0 /L 99 /H [ 500 200 8000 100 ] /O 9 /E 30 /N 1 /T 90 >>\nendobj\n";
    let record = linearization_dictionary(head).unwrap();
    assert_eq!(record.hint_streams, vec![(500, 200), (8000, 100)]);
    assert_eq!(record.first_page, 0);
    assert_eq!(record.version, float(1.0));
}

#[test]
fn a_file_without_the_dictionary_as_its_first_object_is_not_linearized() {
    assert_eq!(linearization_dictionary(b""), None);
    assert_eq!(
        linearization_dictionary(b"%PDF-1.4\n1 0 obj\n<< /Type /Catalog >>\nendobj\n"),
        None
    );
    let missing_page_count =
        b"%PDF-1.4\n43 0 obj\n<< /Linearized 1 /L 12345 /H [ 500 200 ] /O 45 /E 3000 /T 11000 >>\nendobj\n";
    assert_eq!(linearization_dictionary(missing_page_count), None);
    let odd_hint_array =
        b"%PDF-1.4\n43 0 obj\n<< /Linearized 1 /L 12345 /H [ 500 ] /O 45 /E 3000 /N 3 /T 11000 >>\nendobj\n";
    assert_eq!(linearization_dictionary(odd_hint_array), None);
    let mut late = b"%PDF-1.4\n%".to_vec();
    late.extend(std::iter::repeat_n(b'x', 1024));
    late.extend_from_slice(&HEAD[9..]);
    assert_eq!(linearization_dictionary(&late), None);
}

/// A file whose linearization dictionary declares the length `length`.
fn linearized_file(length: &str) -> Vec<u8> {
    format!(
        "%PDF-1.4\n43 0 obj\n<< /Linearized 1 /L {length} /H [ 0 0 ] /O 46 /E 0 /N 1 /T 0 >>\n\
         endobj\n44 0 obj\n<< /Type /Catalog /Pages 45 0 R >>\nendobj\n"
    )
    .into_bytes()
}

#[test]
fn a_document_is_linearized_only_while_the_declared_length_matches() {
    let len = linearized_file("0000000000").len();
    let data = linearized_file(&format!("{len:010}"));
    let record = linearization_dictionary(&data).unwrap();
    assert_eq!(record.first_page_object, 46);
    assert_eq!(record.page_count, 1);
    assert!(record.is_current(data.len() as u64));

    let mut updated = data;
    updated.extend_from_slice(b"%appended update\n");
    let record = linearization_dictionary(&updated).unwrap();
    assert!(!record.is_current(updated.len() as u64));
    assert_eq!(linearization_dictionary(b"%PDF-1.7\n1 0 obj\n<< /Type /Page >>\nendobj\n"), None);
}
