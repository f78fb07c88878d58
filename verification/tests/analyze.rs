use std::path::PathBuf;

use register_core::analyze;
use register_core::test_only::raw_from_bits;
use register_core::{BitPage, Parity, RawPage};

fn page(bits: BitPage, index: usize) -> RawPage {
    raw_from_bits(bits, PathBuf::from(format!("p{index}.pbm")), index)
}

fn make_white(width: u32, height: u32) -> BitPage {
    BitPage::new_white(width, height)
}

fn set_pixel(bp: &mut BitPage, x: u32, y: u32) {
    let stride = bp.stride();
    let row = bp.bytes_mut();
    row[y as usize * stride + (x as usize / 8)] |= 1 << (7 - (x % 8));
}

#[test]
fn blank_page_hands_raw_back() {
    let bits = make_white(10, 10);
    assert!(analyze(page(bits, 0)).is_err());
}

#[test]
fn single_dot_is_a_one_pixel_box() {
    let mut bits = make_white(10, 10);
    set_pixel(&mut bits, 3, 4);
    let analyzed = analyze(page(bits, 0)).expect("ink present");
    let bb = analyzed.layout().main_column;
    assert_eq!((bb.x, bb.y, bb.width, bb.height), (3, 4, 1, 1));
}

#[test]
fn bbox_spans_multiple_rows_and_bytes() {
    let mut bits = make_white(40, 10);
    set_pixel(&mut bits, 3, 1);
    set_pixel(&mut bits, 33, 7);
    let analyzed = analyze(page(bits, 0)).expect("ink present");
    let bb = analyzed.layout().main_column;
    assert_eq!((bb.x, bb.y, bb.width, bb.height), (3, 1, 31, 7));
}

#[test]
fn parity_follows_index() {
    let mut bits = make_white(4, 4);
    set_pixel(&mut bits, 0, 0);
    assert_eq!(
        analyze(page(bits.clone(), 0)).unwrap().parity(),
        Parity::Recto
    );
    assert_eq!(analyze(page(bits, 1)).unwrap().parity(), Parity::Verso);
}

#[test]
fn blank_page_comes_back_unchanged() {
    let bits = make_white(12, 3);
    let back = analyze(page(bits, 5)).unwrap_err();
    assert_eq!(back.index(), 5);
    assert_eq!(back.dimensions(), (12, 3));
    assert_eq!(back.source(), &PathBuf::from("p5.pbm"));
}

#[test]
fn bbox_encloses_every_black_pixel_and_touches_each_edge() {
    let mut bits = make_white(30, 20);
    for (x, y) in [(9, 2), (17, 5), (12, 11), (25, 8)] {
        set_pixel(&mut bits, x, y);
    }
    let analyzed = analyze(page(bits, 2)).unwrap();
    let bb = analyzed.layout().main_column;
    assert_eq!((bb.x, bb.y, bb.width, bb.height), (9, 2, 17, 10));
    assert!(analyzed.layout().pillars.is_empty());
    assert_eq!(analyzed.raw().index(), 2);
}

#[test]
fn ink_in_last_partial_byte_is_found() {
    let mut bits = make_white(13, 2);
    set_pixel(&mut bits, 12, 1);
    let bb = analyze(page(bits, 0)).unwrap().layout().main_column;
    assert_eq!((bb.x, bb.y, bb.width, bb.height), (12, 1, 1, 1));
}

#[test]
fn zero_sized_page_has_no_ink() {
    assert!(analyze(page(make_white(0, 5), 0)).is_err());
    assert!(analyze(page(make_white(5, 0), 0)).is_err());
}

#[test]
fn parity_from_index_alternates() {
    assert_eq!(Parity::from_index(0), Parity::Recto);
    assert_eq!(Parity::from_index(7), Parity::Verso);
    assert_eq!(Parity::from_index(10), Parity::Recto);
}
