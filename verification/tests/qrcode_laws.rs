use ccproject::decode::{decode_checked, hex_matrix_would_parse, read_message, str_to_32_by_32_matrix};
use ccproject::encode::{create_bytes_from_raw_string, create_qr_matrix_from_bytes, encode, get_matrix_dim};
use ccproject::find::{create_raw_qr_code, find_qr_code, find_qr_code_would_succeed, is_position_pattern};
use ccproject::hexfmt::{format_bit_buffer, qr_code_matrix_to_hex_string};
use ccproject::keystream::{xor_with_keystream, xor_with_logistic_map, KEYSTREAM};
use ccproject::matrix::{get_matrix_position_version1, get_matrix_position_version2};
use ccproject::rotate::{rotate_180, rotate_270, rotate_90};

const DECODE_DATA: &str = "0x663cbc630x98f78b370xbef2db180xddd114aa0x54a0e1d70xe9a244870x1659c7170x89506acf0x4dc10b180xefdf26e0xe8e005e10x86a4fda90x15ee1b320xa0ee170e0xe461c3740x928e7f340x98698d070x239af4b60x627807440xfd89c1300x422764790xcd1ac7250xf4364a650x48eeb1570xa7946ab10x665176370x81a511290xceaf2a070xd3fdb0060xebf8889f0x9f7c49160x69e8175b";

fn sample_matrix(n: usize) -> Vec<Vec<u8>> {
    (0..n).map(|r| (0..n).map(|c| ((r * 7 + c * 3) % 5 == 0) as u8).collect()).collect()
}

#[test]
fn keystream_follows_the_logistic_map() {
    let mut x: f64 = 0.1;
    for (n, byte) in KEYSTREAM.iter().enumerate() {
        if n > 0 {
            x = 4.0 * x * (1.0 - x);
        }
        assert_eq!((x * 255.0).floor() as u8, *byte, "byte {}", n);
    }
}

#[test]
fn whitening_twice_restores_the_matrix() {
    for n in [21usize, 25, 32] {
        let before = sample_matrix(n);
        let mut m = before.clone();
        xor_with_logistic_map(&mut m);
        assert_ne!(m, before);
        xor_with_logistic_map(&mut m);
        assert_eq!(m, before);
    }
}

#[test]
fn whitening_xors_the_first_keystream_bits() {
    let mut m = vec![vec![0u8; 21]; 21];
    xor_with_logistic_map(&mut m);
    // first byte 25 = 0b00011001, read least significant bit first
    assert_eq!(&m[0][0..8], &[1, 0, 0, 1, 1, 0, 0, 0]);
}

#[test]
fn rotations_undo_each_other() {
    let before = sample_matrix(7);
    let mut m = before.clone();
    rotate_90(&mut m);
    assert_ne!(m, before);
    rotate_270(&mut m);
    assert_eq!(m, before);
    rotate_180(&mut m);
    rotate_180(&mut m);
    assert_eq!(m, before);
    let mut twice = before.clone();
    rotate_90(&mut twice);
    rotate_90(&mut twice);
    let mut half = before.clone();
    rotate_180(&mut half);
    assert_eq!(twice, half);
}

#[test]
fn rotate_90_turns_clockwise() {
    let mut m = vec![vec![1u8, 2], vec![3, 4]];
    rotate_90(&mut m);
    assert_eq!(m, vec![vec![3, 1], vec![4, 2]]);
    rotate_270(&mut m);
    rotate_270(&mut m);
    assert_eq!(m, vec![vec![2, 4], vec![1, 3]]);
}

#[test]
fn read_back_what_the_encoder_laid_out() {
    for message in ["CC Team", "A", "Hello, QR code", "CC Team is awesome!", "0123456789012345678901"] {
        let payload = create_bytes_from_raw_string(message);
        let dim = get_matrix_dim(message);
        let qr = create_qr_matrix_from_bytes(&payload, dim);
        let text: String = read_message(&qr).into_iter().collect();
        assert_eq!(text, message);
    }
}

#[test]
fn payload_holds_length_and_parity_bytes() {
    assert_eq!(create_bytes_from_raw_string("AB"), vec![2, 65, 0, 66, 0]);
    assert_eq!(create_bytes_from_raw_string("C"), vec![1, 67, 1]);
    assert_eq!(create_bytes_from_raw_string(""), vec![0]);
}

#[test]
fn matrix_side_depends_on_length() {
    assert_eq!(get_matrix_dim("1234567890123"), 21);
    assert_eq!(get_matrix_dim("12345678901234"), 25);
    assert_eq!(get_matrix_dim("1234567890123456789012"), 25);
}

#[test]
fn data_order_starts_bottom_right() {
    let p = get_matrix_position_version1(0);
    assert_eq!((p.row, p.col), (20, 20));
    let p = get_matrix_position_version1(1);
    assert_eq!((p.row, p.col), (20, 19));
    let p = get_matrix_position_version1(26);
    assert_eq!((p.row, p.col), (8, 18));
    let p = get_matrix_position_version2(369);
    assert_eq!((p.row, p.col), (16, 0));
    let p = get_matrix_position_version2(500);
    assert_eq!((p.row, p.col), (0, 0));
}

#[test]
fn words_drop_leading_zeros() {
    assert_eq!(format_bit_buffer(0), "0x0");
    assert_eq!(format_bit_buffer(0xabc), "0xabc");
    assert_eq!(format_bit_buffer(0x0f00_0001), "0xf000001");
    assert_eq!(format_bit_buffer(0xffff_ffff), "0xffffffff");
}

#[test]
fn hex_text_reads_back_as_the_matrix() {
    let m = sample_matrix(32);
    let hex = qr_code_matrix_to_hex_string(&m);
    assert!(hex_matrix_would_parse(&hex));
    assert_eq!(str_to_32_by_32_matrix(&hex), m);
}

#[test]
fn hex_text_of_a_small_code_ends_with_a_short_word() {
    let m = vec![vec![1u8; 21]; 21];
    let hex = qr_code_matrix_to_hex_string(&m);
    // 441 cells: 13 full words and 25 bits left
    assert_eq!(hex.matches("0x").count(), 14);
    assert!(hex.ends_with("0x1ffffff"));
}

#[test]
fn malformed_hex_is_refused() {
    assert!(!hex_matrix_would_parse("0x1"));
    assert!(!hex_matrix_would_parse(""));
    let too_wide = "0x123456789".repeat(32);
    assert!(!hex_matrix_would_parse(&too_wide));
    assert!(hex_matrix_would_parse(DECODE_DATA));
}

#[test]
fn decode_checked_agrees_with_decode() {
    let data = decode_checked(DECODE_DATA, "1706567290739").expect("decodable");
    assert_eq!(data.decoded_qrcode, "Upc7Lu");
    assert_eq!(data.timestamp, 1706567290739);
    assert!(decode_checked(DECODE_DATA, "not a number").is_none());
    assert!(decode_checked("0x0", "1").is_none());
    let blank = "0x0".repeat(32);
    assert!(decode_checked(&blank, "1").is_none());
}

#[test]
fn raw_code_is_found_and_turned_upright() {
    let raw = create_raw_qr_code(25, 90, 2, 5);
    assert_eq!(raw.len(), 32);
    assert!(raw.iter().all(|row| row.len() == 32));
    // rotation 90 clears the bottom-left pattern
    assert!(is_position_pattern(2, 5, &raw));
    assert!(is_position_pattern(2, 23, &raw));
    assert!(is_position_pattern(20, 23, &raw));
    assert!(!is_position_pattern(20, 5, &raw));
    assert!(find_qr_code_would_succeed(&raw));
    let qr = find_qr_code(&raw);
    assert_eq!(qr.len(), 25);
    assert!(is_position_pattern(0, 0, &qr));
    assert!(is_position_pattern(0, 18, &qr));
    assert!(is_position_pattern(18, 0, &qr));
    assert!(!is_position_pattern(18, 18, &qr));
}

#[test]
fn half_turned_raw_code_comes_out_upright() {
    let raw = create_raw_qr_code(21, 180, 0, 0);
    assert!(!is_position_pattern(0, 0, &raw));
    assert!(is_position_pattern(14, 14, &raw));
    let qr = find_qr_code(&raw);
    assert_eq!(qr.len(), 21);
    assert!(is_position_pattern(0, 0, &qr));
    assert!(!is_position_pattern(14, 14, &qr));
}

#[test]
fn encode_hex_has_one_word_per_32_cells() {
    let hex = encode("CC Team");
    assert_eq!(hex.matches("0x").count(), 14);
    let hex = encode("CC Team is awesome!");
    assert_eq!(hex.matches("0x").count(), 20);
}

#[test]
fn quarter_turns_of_wide_matrices_keep_the_extra_columns_aside() {
    let mut m = vec![vec![1u8, 2, 5], vec![3, 4, 6]];
    rotate_90(&mut m);
    assert_eq!(m, vec![vec![5, 3, 1], vec![6, 4, 2]]);
    let mut m = vec![vec![1u8, 2, 5], vec![3, 4, 6]];
    rotate_270(&mut m);
    assert_eq!(m, vec![vec![2, 4, 5], vec![1, 3, 6]]);
    let mut m = vec![vec![1u8, 2, 5], vec![3, 4, 6]];
    rotate_180(&mut m);
    assert_eq!(m, vec![vec![6, 4, 3], vec![5, 2, 1]]);
}

fn in_band(k: i64) -> bool {
    (0..7).contains(&k)
}

fn finder(i: i64, j: i64) -> bool {
    i == 0 || i == 6 || j == 0 || j == 6 || ((2..=4).contains(&i) && (2..=4).contains(&j))
}

fn corner_dark(i: i64, j: i64) -> bool {
    in_band(i) && in_band(j) && finder(i, j)
}

/// Outline of a square of side `size`: finder patterns top left, top right,
/// bottom left, and bottom right too when `four` holds.
fn outline(size: usize, four: bool) -> Vec<Vec<u8>> {
    let n = size as i64;
    (0..n)
        .map(|r| {
            (0..n)
                .map(|c| {
                    let dark = corner_dark(r, c)
                        || corner_dark(r, n - 1 - c)
                        || corner_dark(n - 1 - r, c)
                        || (four && corner_dark(n - 1 - r, n - 1 - c));
                    u8::from(dark)
                })
                .collect()
        })
        .collect()
}

#[test]
fn drawn_codes_come_out_upright_at_every_quarter_turn() {
    for size in [15usize, 16, 21, 25, 32] {
        for rotation in [0u32, 90, 180, 270] {
            for (sx, sy) in [(0usize, 0usize), (32 - size, 0), (0, 32 - size), (32 - size, 32 - size)] {
                let raw = create_raw_qr_code(size, rotation, sx, sy);
                assert!(find_qr_code_would_succeed(&raw));
                assert_eq!(find_qr_code(&raw), outline(size, false));
            }
        }
    }
}

#[test]
fn drawn_code_at_another_angle_is_cut_out_with_four_patterns() {
    for rotation in [45u32, 1, 360] {
        let raw = create_raw_qr_code(21, rotation, 3, 7);
        assert!(find_qr_code_would_succeed(&raw));
        assert_eq!(find_qr_code(&raw), outline(21, true));
    }
}

#[test]
fn drawn_code_of_side_14_comes_out_upright() {
    for rotation in [0u32, 90, 180, 270] {
        for (sx, sy) in [(0usize, 0usize), (18, 18), (5, 11)] {
            let raw = create_raw_qr_code(14, rotation, sx, sy);
            assert!(find_qr_code_would_succeed(&raw));
            assert_eq!(find_qr_code(&raw), outline(14, false));
        }
    }
}

#[test]
fn drawn_code_of_side_13_loses_a_pattern_to_the_cleared_corner() {
    let raw = create_raw_qr_code(13, 0, 0, 0);
    assert!(!is_position_pattern(0, 0, &raw));
    assert!(!find_qr_code_would_succeed(&raw));
}

#[test]
fn unturned_raw_code_clears_the_bottom_right_corner() {
    let raw = create_raw_qr_code(21, 0, 4, 6);
    assert!(is_position_pattern(4, 6, &raw));
    assert!(is_position_pattern(4, 20, &raw));
    assert!(is_position_pattern(18, 6, &raw));
    assert!(!is_position_pattern(18, 20, &raw));
    assert!(raw[18..25].iter().all(|row| row[20..27].iter().all(|&v| v == 0)));
    assert_eq!(find_qr_code(&raw), outline(21, false));
}

#[test]
fn decode_reads_back_an_encoded_message_at_every_quarter_turn() {
    for (msg, r, c) in [("CC Team", 3usize, 5usize), ("A", 11, 0), ("twenty-two characters", 0, 7)] {
        let payload = create_bytes_from_raw_string(msg);
        let dim = get_matrix_dim(msg);
        let mut turned = create_qr_matrix_from_bytes(&payload, dim);
        for _ in 0..4 {
            let mut m = vec![vec![0u8; 32]; 32];
            for i in 0..dim {
                for j in 0..dim {
                    m[r + i][c + j] = turned[i][j];
                }
            }
            xor_with_logistic_map(&mut m);
            let hex = qr_code_matrix_to_hex_string(&m);
            let data = decode_checked(&hex, "1706567290739").expect("decodable");
            assert_eq!(data.decoded_qrcode, msg);
            rotate_90(&mut turned);
        }
    }
}

fn logistic_stream(bytes: usize) -> Vec<u8> {
    let mut x: f64 = 0.1;
    (0..bytes)
        .map(|n| {
            if n > 0 {
                x = 4.0 * x * (1.0 - x);
            }
            (x * 255.0).floor() as u8
        })
        .collect()
}

#[test]
fn whitening_with_a_given_keystream_twice_restores_any_size() {
    for n in [1usize, 33, 40, 64] {
        let stream = logistic_stream((n * n).div_ceil(8));
        let before = sample_matrix(n);
        let mut m = before.clone();
        xor_with_keystream(&mut m, &stream);
        assert_ne!(m, before);
        xor_with_keystream(&mut m, &stream);
        assert_eq!(m, before);
    }
}

#[test]
fn whitening_with_the_table_agrees_with_the_given_keystream() {
    let stream = logistic_stream(128);
    assert_eq!(&stream[..], &KEYSTREAM[..]);
    for n in [21usize, 25, 32] {
        let mut a = sample_matrix(n);
        let mut b = a.clone();
        xor_with_logistic_map(&mut a);
        xor_with_keystream(&mut b, &stream);
        assert_eq!(a, b);
    }
}
