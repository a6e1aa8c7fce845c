use pdfboss_core::filters::predictor::{
    apply, paeth, png_rows, post_pass, tiff_horizontal, tiff_horizontal_in_place, unfilter_row,
};
use pdfboss_core::object::{Dict, Name, Object};

fn png_encode(rows: &[&[u8]], types: &[u8], bpp: usize) -> Vec<u8> {
    let mut out = Vec::new();
    let mut prev = vec![0u8; rows[0].len()];
    for (row, &t) in rows.iter().zip(types) {
        out.push(t);
        for i in 0..row.len() {
            let a = if i >= bpp { row[i - bpp] } else { 0 };
            let b = prev[i];
            let c = if i >= bpp { prev[i - bpp] } else { 0 };
            let pred = match t {
                1 => a,
                2 => b,
                3 => ((u16::from(a) + u16::from(b)) / 2) as u8,
                4 => paeth(a, b, c),
                _ => 0,
            };
            out.push(row[i].wrapping_sub(pred));
        }
        prev = row.to_vec();
    }
    out
}

#[test]
fn paeth_basic_and_tie_breaking() {
    assert_eq!(paeth(0, 0, 0), 0);
    assert_eq!(paeth(5, 5, 3), 5);
    assert_eq!(paeth(5, 2, 4), 2);
    assert_eq!(paeth(2, 4, 3), 3);
    assert_eq!(paeth(10, 100, 100), 10);
}

#[test]
fn png_every_row_type_round_trips() {
    let rows: Vec<Vec<u8>> = vec![
        vec![1, 2, 3, 4, 5, 6],
        vec![10, 9, 8, 7, 6, 5],
        vec![100, 120, 140, 160, 180, 200],
        vec![0, 255, 1, 254, 2, 253],
        vec![50, 50, 50, 51, 51, 51],
    ];
    let refs: Vec<&[u8]> = rows.iter().map(Vec::as_slice).collect();
    let types = [0u8, 1, 2, 3, 4];
    let encoded = png_encode(&refs, &types, 3);
    let expected: Vec<u8> = rows.concat();
    assert_eq!(apply(&encoded, 12, 3, 8, 2).unwrap(), expected);
}

#[test]
fn png_paeth_only_rows() {
    let rows: Vec<Vec<u8>> = vec![vec![7, 200, 3, 90], vec![8, 201, 5, 89], vec![0, 0, 0, 0]];
    let refs: Vec<&[u8]> = rows.iter().map(Vec::as_slice).collect();
    let encoded = png_encode(&refs, &[4, 4, 4], 1);
    assert_eq!(apply(&encoded, 15, 1, 8, 4).unwrap(), rows.concat());
}

#[test]
fn png_row_length_rounds_up_for_sub_byte_samples() {
    let rows: Vec<Vec<u8>> = vec![
        vec![0b1010_1010, 0b1100_0000],
        vec![0b0101_0101, 0b0100_0000],
    ];
    let refs: Vec<&[u8]> = rows.iter().map(Vec::as_slice).collect();
    let encoded = png_encode(&refs, &[1, 2], 1);
    assert_eq!(apply(&encoded, 10, 1, 1, 10).unwrap(), rows.concat());
}

#[test]
fn png_unknown_filter_type_passes_row_through() {
    let encoded = [7u8, 1, 2, 3];
    assert_eq!(apply(&encoded, 10, 1, 8, 3).unwrap(), vec![1, 2, 3]);
}

#[test]
fn png_truncated_final_row_decodes_prefix() {
    let encoded = [1u8, 10, 10, 10, 2, 5];
    assert_eq!(apply(&encoded, 12, 1, 8, 3).unwrap(), vec![10, 20, 30, 15]);
}

#[test]
fn tiff_horizontal_diff_round_trips() {
    let raw = [
        10u8, 20, 30, 15, 25, 35, 5, 0, 40,
        1, 2, 3, 4, 5, 6, 7, 8, 9,
    ];
    let encoded = [
        10u8, 20, 30, 5, 5, 5, 246, 231, 5,
        1, 2, 3, 3, 3, 3, 3, 3, 3,
    ];
    assert_eq!(apply(&encoded, 2, 3, 8, 3).unwrap(), raw);
}

#[test]
fn tiff_non_8bit_components_pass_through() {
    let data = [1u8, 2, 3, 4, 5, 6];
    assert_eq!(apply(&data, 2, 1, 4, 8).unwrap(), data);
    assert_eq!(apply(&data, 2, 1, 16, 3).unwrap(), data);
}

#[test]
fn predictor_one_and_unknown_values_pass_through() {
    let data = [9u8, 8, 7];
    assert_eq!(apply(&data, 1, 1, 8, 3).unwrap(), data);
    assert_eq!(apply(&data, 5, 1, 8, 3).unwrap(), data);
    assert_eq!(apply(&data, 0, 1, 8, 3).unwrap(), data);
}

#[test]
fn empty_data_stays_empty() {
    assert!(apply(&[], 12, 1, 8, 4).unwrap().is_empty());
    assert!(apply(&[], 2, 1, 8, 4).unwrap().is_empty());
}

#[test]
fn degenerate_parameters_do_not_panic() {
    let data = [0u8, 1, 2];
    assert_eq!(apply(&data, 10, 0, 8, 0).unwrap(), vec![1]);
}

#[test]
fn post_pass_reads_parms_with_defaults() {
    let mut d = Dict::new();
    d.insert(Name("Predictor".into()), Object::Int(2));
    d.insert(Name("Columns".into()), Object::Int(4));
    let data = vec![5u8, 2, 2, 2];
    assert_eq!(post_pass(data, Some(&d)).unwrap(), vec![5, 7, 9, 11]);
    assert_eq!(post_pass(vec![1, 2, 3], None).unwrap(), vec![1, 2, 3]);
}

#[test]
fn the_row_steps_are_those_of_the_whole_pass() {
    let mut row = vec![1, 1, 1, 1];
    unfilter_row(1, &mut row, &[0, 0, 0, 0], 2);
    assert_eq!(row, vec![1, 1, 2, 2]);
    let mut row = vec![1, 2, 3];
    unfilter_row(2, &mut row, &[10, 20, 30], 1);
    assert_eq!(row, vec![11, 22, 33]);
    let mut row = vec![255, 1];
    unfilter_row(2, &mut row, &[2, 3], 1);
    assert_eq!(row, vec![1, 4]);
    assert_eq!(png_rows(&[2, 5, 6, 2, 1, 1], 1, 8, 2), vec![5, 6, 6, 7]);
    let mut buf = vec![1, 2, 3, 4, 5];
    tiff_horizontal_in_place(&mut buf, 1, 3);
    assert_eq!(buf, vec![1, 3, 6, 4, 9]);
    assert_eq!(tiff_horizontal(&[1, 2, 3, 4], 2, 8, 2), vec![1, 2, 4, 6]);
    assert_eq!(tiff_horizontal(&[1, 2, 3, 4], 2, 16, 2), vec![1, 2, 3, 4]);
}

#[test]
fn rows_of_no_length_restore_to_what_there_is() {
    let mut buf = vec![1, 2, 3];
    tiff_horizontal_in_place(&mut buf, 0, 3);
    assert_eq!(buf, vec![1, 2, 3]);
    tiff_horizontal_in_place(&mut buf, 3, 0);
    assert_eq!(buf, vec![1, 2, 3]);
    assert_eq!(tiff_horizontal(&[1, 2, 3], 0, 8, 0), vec![1, 2, 3]);
    assert_eq!(png_rows(&[1, 2, 3], 0, 8, 4), Vec::<u8>::new());
    assert_eq!(png_rows(&[1, 2, 3], 1, 0, 4), Vec::<u8>::new());
    assert_eq!(png_rows(&[1, 2, 3], 1, 8, 0), Vec::<u8>::new());
    assert_eq!(png_rows(&[0, 1, 2, 0, 3], usize::MAX, usize::MAX, 1), vec![1, 2, 0, 3]);
    assert_eq!(png_rows(&[1, 1, 1, 1, 1], 1, 32, 1), vec![1, 1, 1, 1]);
}

#[test]
fn a_pixel_of_no_width_predicts_from_itself() {
    let mut row = vec![1, 2, 200];
    unfilter_row(1, &mut row, &[], 0);
    assert_eq!(row, vec![2, 4, 144]);
    let mut row = vec![10, 20];
    unfilter_row(3, &mut row, &[4, 6], 0);
    assert_eq!(row, vec![17, 33]);
    let mut row = vec![7, 8];
    unfilter_row(0, &mut row, &[], 0);
    assert_eq!(row, vec![7, 8]);
}
