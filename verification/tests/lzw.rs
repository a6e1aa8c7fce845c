use pdfboss_core::filters::lzw::{
    decode, BitReader, CLEAR, EOD, FIRST_FREE, MAX_TABLE, MAX_WIDTH, MIN_WIDTH,
};
use pdfboss_core::filters::MAX_DECODED_LEN;
use pdfboss_core::object::{Dict, Name, Object};

struct BitWriter {
    bytes: Vec<u8>,
    bit: u32,
}

impl BitWriter {
    fn new() -> Self {
        BitWriter {
            bytes: Vec::new(),
            bit: 0,
        }
    }

    fn write(&mut self, value: u32, width: u32) {
        for k in (0..width).rev() {
            if self.bit == 0 {
                self.bytes.push(0);
            }
            let b = ((value >> k) & 1) as u8;
            *self.bytes.last_mut().unwrap() |= b << (7 - self.bit);
            self.bit = (self.bit + 1) % 8;
        }
    }

    fn finish(self) -> Vec<u8> {
        self.bytes
    }
}

fn encode_literals(bytes: &[u8], early: usize) -> Vec<u8> {
    let mut w = BitWriter::new();
    let mut width = MIN_WIDTH;
    w.write(CLEAR as u32, width);
    let mut table_len = FIRST_FREE;
    let mut first = true;
    for &b in bytes {
        w.write(u32::from(b), width);
        if first {
            first = false;
        } else {
            table_len += 1;
        }
        if width < MAX_WIDTH && table_len + early >= (1 << width) {
            width += 1;
        }
    }
    w.write(EOD as u32, width);
    w.finish()
}

fn early_parms(v: i64) -> Dict {
    let mut d = Dict::new();
    d.insert(Name("EarlyChange".into()), Object::Int(v));
    d
}

#[test]
fn handmade_byte_vector_decodes() {
    let data = [0x80u8, 0x10, 0x48, 0x50, 0x28, 0x08];
    assert_eq!(decode(&data, None).unwrap(), b"ABAB");
}

#[test]
fn kwkwk_code_just_beyond_table() {
    let mut w = BitWriter::new();
    for code in [256u32, 65, 258, 257] {
        w.write(code, 9);
    }
    assert_eq!(decode(&w.finish(), None).unwrap(), b"AAA");
}

#[test]
fn clear_code_resets_table_and_width() {
    let mut w = BitWriter::new();
    for code in [256u32, 65, 66, 256, 66, 65, 257] {
        w.write(code, 9);
    }
    assert_eq!(decode(&w.finish(), None).unwrap(), b"ABBA");
}

#[test]
fn codes_after_eod_are_ignored() {
    let mut w = BitWriter::new();
    for code in [256u32, 72, 73, 257, 74, 75] {
        w.write(code, 9);
    }
    assert_eq!(decode(&w.finish(), None).unwrap(), b"HI");
}

#[test]
fn truncated_stream_returns_prefix() {
    let data = [0x80u8, 0x10, 0x48];
    assert_eq!(decode(&data, None).unwrap(), b"A");
}

#[test]
fn missing_eod_returns_everything_decoded() {
    let mut w = BitWriter::new();
    for code in [256u32, 88, 89] {
        w.write(code, 9);
    }
    assert_eq!(decode(&w.finish(), None).unwrap(), b"XY");
}

#[test]
fn width_grows_at_511_with_early_change_one() {
    let bytes = vec![0u8; 254];
    let stream1 = encode_literals(&bytes, 1);
    assert_eq!(decode(&stream1, None).unwrap(), bytes);
    let stream0 = encode_literals(&bytes, 0);
    assert_ne!(stream0, stream1);
    assert_eq!(decode(&stream0, Some(&early_parms(0))).unwrap(), bytes);
}

#[test]
fn early_change_mismatch_desynchronises() {
    let bytes: Vec<u8> = (0..600u32).map(|i| (i % 251) as u8).collect();
    let stream0 = encode_literals(&bytes, 0);
    assert_ne!(decode(&stream0, None).unwrap(), bytes);
    assert_eq!(decode(&stream0, Some(&early_parms(0))).unwrap(), bytes);
}

#[test]
fn width_growth_across_511_1023_and_2047() {
    let bytes: Vec<u8> = (0..2500u32).map(|i| (i % 251) as u8).collect();
    for early in [0i64, 1] {
        let stream = encode_literals(&bytes, early as usize);
        let parms = early_parms(early);
        assert_eq!(
            decode(&stream, Some(&parms)).unwrap(),
            bytes,
            "EarlyChange {early}"
        );
    }
}

#[test]
fn default_early_change_is_one() {
    let bytes = vec![7u8; 300];
    let stream = encode_literals(&bytes, 1);
    assert_eq!(decode(&stream, None).unwrap(), bytes);
    assert_eq!(decode(&stream, Some(&early_parms(1))).unwrap(), bytes);
}

#[test]
fn corrupt_code_keeps_prefix() {
    let mut w = BitWriter::new();
    for code in [256u32, 65, 300, 66, 257] {
        w.write(code, 9);
    }
    assert_eq!(decode(&w.finish(), None).unwrap(), b"A");
}

#[test]
fn empty_input_decodes_to_empty() {
    assert!(decode(&[], None).unwrap().is_empty());
}

#[test]
fn predictor_post_pass_applies() {
    let diffed = [5u8, 2, 2, 2];
    let stream = encode_literals(&diffed, 1);
    let mut parms = Dict::new();
    parms.insert(Name("Predictor".into()), Object::Int(2));
    parms.insert(Name("Columns".into()), Object::Int(4));
    assert_eq!(decode(&stream, Some(&parms)).unwrap(), vec![5, 7, 9, 11]);
}

#[test]
fn lzw_decompression_bomb_is_rejected() {
    let mut w = BitWriter::new();
    let mut width = MIN_WIDTH;
    w.write(CLEAR as u32, width);
    w.write(0, width);
    let mut table_len = FIRST_FREE;
    while table_len < MAX_TABLE {
        w.write(table_len as u32, width);
        table_len += 1;
        if width < MAX_WIDTH && table_len + 1 >= (1 << width) {
            width += 1;
        }
    }
    let longest = MAX_TABLE - 257;
    let replays = MAX_DECODED_LEN / longest + 2;
    for _ in 0..replays {
        w.write((MAX_TABLE - 1) as u32, width);
    }
    assert!(decode(&w.finish(), None).is_err());
}

#[test]
fn bits_are_read_from_the_top_of_each_byte() {
    let mut bits = BitReader::new(&[0b1010_0101, 0b1100_0000]);
    assert_eq!(bits.read(3), Some(0b101));
    assert_eq!(bits.read(9), Some(0b0_0101_1100));
    assert_eq!(bits.read(5), None);
}

#[test]
fn literals_are_restored_at_every_width() {
    let bytes: Vec<u8> = (0..5000u32).map(|i| (i * 7 % 251) as u8).collect();
    for early in [0, 1] {
        let mut data = encode_literals_capped(&bytes, early);
        let parms = early_parms(early as i64);
        assert_eq!(decode(&data, Some(&parms)).unwrap(), bytes);
        data.extend([0xAB, 0xCD, 0xEF]);
        assert_eq!(decode(&data, Some(&parms)).unwrap(), bytes);
    }
}

/// Like `encode_literals`, for more bytes than a table has room for.
fn encode_literals_capped(bytes: &[u8], early: usize) -> Vec<u8> {
    let mut w = BitWriter::new();
    let mut width = MIN_WIDTH;
    w.write(CLEAR as u32, width);
    let mut table_len = FIRST_FREE;
    for (i, &b) in bytes.iter().enumerate() {
        w.write(u32::from(b), width);
        if i > 0 && table_len < MAX_TABLE {
            table_len += 1;
        }
        if width < MAX_WIDTH && table_len + early >= (1 << width) {
            width += 1;
        }
    }
    w.write(EOD as u32, width);
    w.finish()
}
