use register_core::BitPage;

#[test]
fn new_white_has_ceil_stride_and_zero_bytes() {
    let page = BitPage::new_white(17, 3);
    assert_eq!((page.width(), page.height(), page.stride()), (17, 3, 3));
    assert_eq!(page.bytes(), &[0u8; 9][..]);
}

#[test]
fn rows_are_stride_slices() {
    let bytes: Vec<u8> = (0..6).collect();
    let mut page = BitPage::from_packed(bytes, 12, 3);
    assert_eq!(page.row(1), &[2, 3]);
    page.row_mut(2)[0] = 9;
    assert_eq!(page.bytes(), &[0, 1, 2, 3, 9, 5]);
    page.reset_white();
    assert_eq!(page.bytes(), &[0u8; 6][..]);
    let (bits, w, h) = page.into_parts();
    assert_eq!((bits.len(), w, h), (6, 12, 3));
}
