use pdfboss_core::filters::run_length::decode;
use pdfboss_core::filters::MAX_DECODED_LEN;

#[test]
fn literal_run() {
    assert_eq!(decode(&[2, b'a', b'b', b'c', 128]).unwrap(), b"abc");
}

#[test]
fn repeat_run() {
    assert_eq!(decode(&[254, b'x', 128]).unwrap(), b"xxx");
}

#[test]
fn mixed_runs() {
    let data = [1, b'h', b'i', 253, b'!', 0, b'?', 128];
    assert_eq!(decode(&data).unwrap(), b"hi!!!!?");
}

#[test]
fn boundary_lengths() {
    let mut data = vec![127u8];
    data.extend(0..=127u8);
    data.push(129);
    data.push(b'z');
    data.push(128);
    let out = decode(&data).unwrap();
    assert_eq!(out.len(), 256);
    assert_eq!(&out[..128], (0..=127u8).collect::<Vec<_>>().as_slice());
    assert!(out[128..].iter().all(|&b| b == b'z'));
}

#[test]
fn eod_stops_decoding() {
    assert_eq!(decode(&[0, b'a', 128, 0, b'b']).unwrap(), b"a");
}

#[test]
fn missing_eod_is_tolerated() {
    assert_eq!(decode(&[0, b'a', 0, b'b']).unwrap(), b"ab");
}

#[test]
fn truncated_literal_run_returns_prefix() {
    assert_eq!(decode(&[3, b'a', b'b']).unwrap(), b"ab");
}

#[test]
fn truncated_repeat_run_returns_prefix() {
    assert_eq!(decode(&[0, b'a', 250]).unwrap(), b"a");
}

#[test]
fn empty_input() {
    assert!(decode(&[]).unwrap().is_empty());
    assert!(decode(&[128]).unwrap().is_empty());
}

#[test]
fn run_length_decompression_bomb_is_rejected() {
    let pairs = MAX_DECODED_LEN / 128 + 2;
    let mut data = Vec::with_capacity(pairs * 2);
    for _ in 0..pairs {
        data.extend_from_slice(&[129, 0]);
    }
    assert!(decode(&data).is_err());
}

#[test]
fn coded_runs_are_restored_before_the_mark() {
    let literal: Vec<u8> = (0..128).collect();
    let mut data = vec![127];
    data.extend(&literal);
    data.extend([129, 7, 255, 9, 128, 3, 3]);
    let mut plain = literal;
    plain.extend(vec![7; 128]);
    plain.extend([9, 9]);
    assert_eq!(decode(&data).unwrap(), plain);
}
