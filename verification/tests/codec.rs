use std::io::Cursor;
use std::path::PathBuf;

use image::{GrayImage, ImageFormat};
use register_core::codec::{encode_page, load_page_bytes, page_from_luma8, writes_p4};
use register_core::pbm::encode_p4;
use register_core::raster::bit_unpack_to_grayscale;
use register_core::{BitPage, RegisterError};

fn encoded(width: u32, height: u32, gray: Vec<u8>, format: ImageFormat) -> Vec<u8> {
    let img = GrayImage::from_raw(width, height, gray).unwrap();
    let mut out = Cursor::new(Vec::new());
    img.write_to(&mut out, format).unwrap();
    out.into_inner()
}

fn sample_page() -> BitPage {
    let mut bits = BitPage::new_white(11, 2);
    bits.bytes_mut()[0] = 0b1010_0000;
    bits.bytes_mut()[3] = 0b0010_0000;
    bits
}

#[test]
fn p4_bytes_load_verbatim() {
    let bytes = b"P4\n9 2\n\x80\x80\x01\x7f".to_vec();
    let raw = load_page_bytes(bytes, "png", PathBuf::from("a.png"), 3).unwrap();
    assert_eq!((raw.bits().width(), raw.bits().height()), (9, 2));
    assert_eq!(raw.bits().bytes(), &[0x80, 0x80, 0x01, 0x7f]);
    assert_eq!(raw.source(), &PathBuf::from("a.png"));
    assert_eq!(raw.index(), 3);
}

#[test]
fn malformed_p4_is_an_image_error() {
    let r = load_page_bytes(b"P4\n1".to_vec(), "pbm", PathBuf::from("b.pbm"), 0);
    assert!(matches!(r, Err(RegisterError::Image { ref path, .. }) if path == &PathBuf::from("b.pbm")));
}

#[test]
fn bitonal_png_loads_and_packs() {
    let gray = vec![0, 255, 255, 255, 0, 0, 255, 255, 255, 0, 255, 0, 0, 255, 0, 255, 255, 255, 255, 0];
    let bytes = encoded(10, 2, gray.clone(), ImageFormat::Png);
    let raw = load_page_bytes(bytes, "png", PathBuf::from("c.png"), 7).unwrap();
    assert_eq!((raw.bits().width(), raw.bits().height()), (10, 2));
    assert_eq!(bit_unpack_to_grayscale(raw.bits()), gray);
    assert_eq!(raw.bits().bytes(), &[0b1000_1100, 0b0100_0000, 0b0110_1000, 0b0100_0000]);
    assert_eq!(raw.index(), 7);
}

#[test]
fn extension_case_does_not_matter_for_decoding() {
    let bytes = encoded(2, 1, vec![0, 255], ImageFormat::Png);
    let raw = load_page_bytes(bytes, "PNG", PathBuf::from("d.PNG"), 0).unwrap();
    assert_eq!(bit_unpack_to_grayscale(raw.bits()), vec![0, 255]);
}

#[test]
fn tiff_loads_too() {
    let bytes = encoded(3, 1, vec![255, 0, 255], ImageFormat::Tiff);
    let raw = load_page_bytes(bytes, "tif", PathBuf::from("e.tif"), 0).unwrap();
    assert_eq!(bit_unpack_to_grayscale(raw.bits()), vec![255, 0, 255]);
}

#[test]
fn gray_png_is_refused_not_binarised() {
    let bytes = encoded(2, 1, vec![0, 128], ImageFormat::Png);
    let r = load_page_bytes(bytes, "png", PathBuf::from("f.png"), 0);
    assert!(matches!(r, Err(RegisterError::NotBitonal { ref path }) if path == &PathBuf::from("f.png")));
}

#[test]
fn unknown_or_missing_extension_is_an_image_error() {
    let bytes = encoded(2, 1, vec![0, 255], ImageFormat::Png);
    for ext in ["xyz", ""] {
        let r = load_page_bytes(bytes.clone(), ext, PathBuf::from("g"), 0);
        assert!(matches!(r, Err(RegisterError::Image { .. })), "ext={ext:?}");
    }
}

#[test]
fn undecodable_bytes_are_an_image_error() {
    let r = load_page_bytes(b"not an image".to_vec(), "png", PathBuf::from("h.png"), 0);
    assert!(matches!(r, Err(RegisterError::Image { .. })));
}

#[test]
fn decoded_gray_uses_the_first_width_times_height_bytes() {
    let raw = page_from_luma8(Ok((2, 1, vec![0, 255, 17])), PathBuf::from("i"), 5).unwrap();
    assert_eq!(bit_unpack_to_grayscale(raw.bits()), vec![0, 255]);
    assert_eq!(raw.index(), 5);
    let r = page_from_luma8(Ok((1, 1, vec![5])), PathBuf::from("j"), 0);
    assert!(matches!(r, Err(RegisterError::NotBitonal { .. })));
}

#[test]
fn p4_is_chosen_for_pbm_in_any_case_or_no_extension() {
    assert!(writes_p4(None));
    assert!(writes_p4(Some("pbm")));
    assert!(writes_p4(Some("PbM")));
    assert!(!writes_p4(Some("png")));
    assert!(!writes_p4(Some("pbmx")));
    assert!(!writes_p4(Some("")));
}

#[test]
fn pbm_destinations_get_p4_bytes() {
    let bits = sample_page();
    assert_eq!(encode_page(&bits, None).unwrap(), encode_p4(&bits));
    assert_eq!(encode_page(&bits, Some("PBM")).unwrap(), encode_p4(&bits));
}

#[test]
fn png_destination_round_trips_through_the_loader() {
    let bits = sample_page();
    let bytes = encode_page(&bits, Some("png")).unwrap();
    assert_ne!(bytes, bit_unpack_to_grayscale(&bits));
    assert_eq!(&bytes[..4], b"\x89PNG");
    let raw = load_page_bytes(bytes, "png", PathBuf::from("k.png"), 0).unwrap();
    assert_eq!(raw.bits().bytes(), bits.bytes());
}

#[test]
fn unknown_destination_extension_is_an_error() {
    assert!(encode_page(&sample_page(), Some("xyz")).is_err());
}
