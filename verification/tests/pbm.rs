use std::path::PathBuf;

use register_core::pbm::{
    bit_pack_grayscale, decode_p4, encode_p4, is_effectively_bitonal,
    raw_from_gray,
};
use register_core::raster::bit_unpack_to_grayscale;
use register_core::{BitPage, RegisterError};

fn sample_page() -> BitPage {
    let mut bits = BitPage::new_white(13, 3);
    bits.bytes_mut()[0] = 0b1000_0001;
    bits.bytes_mut()[3] = 0b0111_1000;
    bits.bytes_mut()[5] = 0b0000_1000;
    bits
}

#[test]
fn encode_writes_header_then_body() {
    let bytes = encode_p4(&sample_page());
    let mut expected = b"P4\n13 3\n".to_vec();
    expected.extend_from_slice(sample_page().bytes());
    assert_eq!(bytes, expected);
}

#[test]
fn decode_of_encode_gives_the_page_back() {
    for (w, h) in [(13, 3), (8, 1), (0, 4), (1, 0), (100, 7)] {
        let mut page = BitPage::new_white(w, h);
        for (i, b) in page.bytes_mut().iter_mut().enumerate() {
            *b = (i as u8).wrapping_mul(37);
        }
        let back = decode_p4(encode_p4(&page)).expect("well formed");
        assert_eq!(back.width(), w);
        assert_eq!(back.height(), h);
        assert_eq!(back.bytes(), page.bytes());
    }
}

#[test]
fn header_comments_and_whitespace_are_skipped() {
    let mut bytes = b"P4\n# made by hand\n  4\t# width\n2\r".to_vec();
    bytes.extend_from_slice(&[0xF0, 0x90, 0xAA]);
    let page = decode_p4(bytes).expect("well formed");
    assert_eq!((page.width(), page.height()), (4, 2));
    assert_eq!(page.bytes(), &[0xF0, 0x90]);
}

#[test]
fn malformed_headers_are_refused() {
    for bad in [
        &b"P4"[..],
        b"P4\n",
        b"P4\n4",
        b"P4\n4 2",
        b"P4\n4 2x\x00\x00",
        b"P4\nx 2\n\x00\x00",
        b"P4\n4 2\n\x00",
        b"P4\n99999999999 1\n",
        b"P4\n# comment to the end",
    ] {
        assert!(decode_p4(bad.to_vec()).is_none(), "{bad:?}");
    }
}

#[test]
fn largest_width_parses_and_one_more_overflows() {
    assert!(decode_p4(b"P4\n4294967295 0\n".to_vec()).is_some());
    assert!(decode_p4(b"P4\n4294967296 0\n".to_vec()).is_none());
}

#[test]
fn bitonal_check() {
    assert!(is_effectively_bitonal(&[0, 255, 255, 0]));
    assert!(is_effectively_bitonal(&[]));
    assert!(!is_effectively_bitonal(&[0, 128, 255]));
}

#[test]
fn pack_then_unpack_gives_the_gray_image_back() {
    let (w, h) = (11u32, 3u32);
    let gray: Vec<u8> = (0..w * h).map(|i| if i % 3 == 0 { 0 } else { 255 }).collect();
    let page = bit_pack_grayscale(&gray, w, h);
    assert_eq!(page.stride(), 2);
    assert_eq!(bit_unpack_to_grayscale(&page), gray);
    // Padding bits stay clear.
    for y in 0..h as usize {
        assert_eq!(page.bytes()[y * 2 + 1] & 0b0001_1111, 0);
    }
}

#[test]
fn packing_reads_black_as_high_bit_clear_in_whole_bytes() {
    let gray = [0u8, 127, 128, 255, 1, 200, 0, 255, 1, 0];
    let page = bit_pack_grayscale(&gray, 10, 1);
    // Whole byte: values below 128 are black. Tail byte: only 0 is black.
    assert_eq!(page.bytes(), &[0b1100_1010, 0b0100_0000]);
}

#[test]
fn raw_from_gray_refuses_gray_pixels() {
    let path = PathBuf::from("gray.png");
    let err = raw_from_gray(&[0, 255, 17, 0], 2, 2, path.clone(), 0).unwrap_err();
    assert!(matches!(err, RegisterError::NotBitonal { path: p } if p == path));
    let raw = raw_from_gray(&[0, 255, 255, 0], 2, 2, path.clone(), 6).unwrap();
    assert_eq!(raw.index(), 6);
    assert_eq!(raw.bits().bytes(), &[0b1000_0000, 0b0100_0000]);
}

#[test]
fn decode_of_encode_ignores_trailing_bytes() {
    let bits = sample_page();
    let mut bytes = encode_p4(&bits);
    bytes.extend_from_slice(b"\x00\xffP4 trailing");
    let back = decode_p4(bytes).unwrap();
    assert_eq!((back.width(), back.height()), (bits.width(), bits.height()));
    assert_eq!(back.bytes(), bits.bytes());
}

#[test]
fn pack_of_unpack_gives_every_byte_back() {
    let mut bits = BitPage::new_white(8, 256);
    for (i, b) in bits.bytes_mut().iter_mut().enumerate() {
        *b = i as u8;
    }
    let gray = bit_unpack_to_grayscale(&bits);
    let again = bit_pack_grayscale(&gray, 8, 256);
    assert_eq!(again.bytes(), bits.bytes());
}
