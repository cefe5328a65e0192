use finales_funkeln::ppm::{ppm_decode, ppm_encode, Rgb};

fn px(r: u8, g: u8, b: u8) -> Rgb {
    Rgb { r, g, b }
}

#[test]
fn encode_single_pixel() {
    let pixels = vec![vec![px(1, 2, 3)]];
    let bytes = ppm_encode(&pixels);
    let mut expected: Vec<u8> = b"P6\n1\n1\n255\n".to_vec();
    expected.extend_from_slice(&[1, 2, 3]);
    assert_eq!(bytes, expected);
}

#[test]
fn encode_writes_rows_bottom_up() {
    // The framebuffer's first row is the bottom of the picture; the file
    // carries the top row first, so row 1 precedes row 0.
    let pixels = vec![
        vec![px(10, 11, 12), px(13, 14, 15)],
        vec![px(20, 21, 22), px(23, 24, 25)],
    ];
    let bytes = ppm_encode(&pixels);
    let mut expected: Vec<u8> = b"P6\n2\n2\n255\n".to_vec();
    expected.extend_from_slice(&[20, 21, 22, 23, 24, 25]);
    expected.extend_from_slice(&[10, 11, 12, 13, 14, 15]);
    assert_eq!(bytes, expected);
}

#[test]
fn encode_multi_digit_dimensions() {
    let pixels = vec![vec![px(0, 0, 0); 12]; 3];
    let bytes = ppm_encode(&pixels);
    assert!(bytes.starts_with(b"P6\n12\n3\n255\n"));
    assert_eq!(bytes.len(), b"P6\n12\n3\n255\n".len() + 12 * 3 * 3);
}

#[test]
fn decode_undoes_encode() {
    let pixels = vec![
        vec![px(10, 11, 12), px(13, 14, 15), px(16, 17, 18)],
        vec![px(20, 21, 22), px(23, 24, 25), px(26, 27, 28)],
    ];
    let bytes = ppm_encode(&pixels);
    let back = ppm_decode(&bytes).expect("a written file must read back");
    assert_eq!(back, pixels);
}

#[test]
fn decode_undoes_encode_zero_width() {
    let pixels: Vec<Vec<Rgb>> = vec![Vec::new(), Vec::new()];
    let bytes = ppm_encode(&pixels);
    assert_eq!(bytes, b"P6\n0\n2\n255\n".to_vec());
    let back = ppm_decode(&bytes).expect("a written file must read back");
    assert_eq!(back, pixels);
}

#[test]
fn decode_accepts_exact_bytes() {
    let mut bytes: Vec<u8> = b"P6\n2\n1\n255\n".to_vec();
    bytes.extend_from_slice(&[1, 2, 3, 4, 5, 6]);
    let rows = ppm_decode(&bytes).expect("a well-formed file must parse");
    assert_eq!(rows, vec![vec![px(1, 2, 3), px(4, 5, 6)]]);
}

#[test]
fn decode_rejects_bad_magic() {
    let mut bytes: Vec<u8> = b"P5\n1\n1\n255\n".to_vec();
    bytes.extend_from_slice(&[1, 2, 3]);
    assert!(ppm_decode(&bytes).is_none());
    assert!(ppm_decode(&Vec::new()).is_none());
    assert!(ppm_decode(&b"P6".to_vec()).is_none());
}

#[test]
fn decode_rejects_leading_zero_and_missing_number() {
    let mut bytes: Vec<u8> = b"P6\n01\n1\n255\n".to_vec();
    bytes.extend_from_slice(&[1, 2, 3]);
    assert!(ppm_decode(&bytes).is_none());
    assert!(ppm_decode(&b"P6\n\n1\n255\n".to_vec()).is_none());
}

#[test]
fn decode_rejects_zero_height() {
    assert!(ppm_decode(&b"P6\n1\n0\n255\n".to_vec()).is_none());
}

#[test]
fn decode_rejects_wrong_payload_length() {
    let mut short: Vec<u8> = b"P6\n2\n1\n255\n".to_vec();
    short.extend_from_slice(&[1, 2, 3]);
    assert!(ppm_decode(&short).is_none());
    let mut long: Vec<u8> = b"P6\n1\n1\n255\n".to_vec();
    long.extend_from_slice(&[1, 2, 3, 4]);
    assert!(ppm_decode(&long).is_none());
}

#[test]
fn decode_rejects_wrong_maximum() {
    let mut bytes: Vec<u8> = b"P6\n1\n1\n254\n".to_vec();
    bytes.extend_from_slice(&[1, 2, 3]);
    assert!(ppm_decode(&bytes).is_none());
}
