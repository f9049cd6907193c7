use base64::Engine;
use netguard::icon::{build_bmp, build_bmp_data_uri};

#[test]
fn test_build_bmp_data_uri_format() {
    let pixels = vec![0u8; 4 * 4];
    let uri = build_bmp_data_uri(&pixels, 2, 2);
    assert!(uri.starts_with("data:image/bmp;base64,"));
}

#[test]
fn test_build_bmp_data_uri_correct_file_size() {
    let pixels = vec![0xFFu8; 16 * 16 * 4];
    let uri = build_bmp_data_uri(&pixels, 16, 16);
    let b64_part = uri.strip_prefix("data:image/bmp;base64,").unwrap();
    let decoded = base64::engine::general_purpose::STANDARD.decode(b64_part).unwrap();
    let expected_size = 14 + 40 + (16 * 16 * 4);
    assert_eq!(decoded.len(), expected_size);
    assert_eq!(&decoded[0..2], b"BM");
}

#[test]
fn bmp_rows_are_stored_bottom_up() {
    // 1 x 2 image: top pixel 1,2,3,4 and bottom pixel 5,6,7,8.
    let pixels = vec![1u8, 2, 3, 4, 5, 6, 7, 8];
    let bmp = build_bmp(&pixels, 1, 2);
    assert_eq!(bmp.len(), 54 + 8);
    assert_eq!(&bmp[2..6], &62u32.to_le_bytes());
    assert_eq!(&bmp[10..14], &54u32.to_le_bytes());
    assert_eq!(&bmp[18..22], &1u32.to_le_bytes());
    assert_eq!(&bmp[22..26], &2u32.to_le_bytes());
    assert_eq!(&bmp[28..30], &32u16.to_le_bytes());
    assert_eq!(&bmp[54..], &[5, 6, 7, 8, 1, 2, 3, 4]);
}

#[test]
fn data_uri_carries_the_encoded_file() {
    let pixels = vec![9u8; 4];
    let uri = build_bmp_data_uri(&pixels, 1, 1);
    let bmp = build_bmp(&pixels, 1, 1);
    let expected = format!("data:image/bmp;base64,{}", base64::engine::general_purpose::STANDARD.encode(&bmp));
    assert_eq!(uri, expected);
    assert_ne!(uri, "data:image/bmp;base64,");
}

#[test]
fn data_uri_length_is_padded_base64() {
    let pixels = vec![1u8; 3 * 2 * 4];
    let uri = build_bmp_data_uri(&pixels, 3, 2);
    // 54 + 24 = 78 bytes: 26 groups of three.
    assert_eq!(uri.len(), 22 + 4 * 26);
}
