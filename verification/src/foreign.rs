//! Declarations of the outside types this library carries, and the
//! contracts it relies on for the few std, `image` and `imageproc`
//! functions it calls.

use vstd::prelude::*;

use crate::codec::{decoded_luma8, encoded_luma8};

verus! {

/// `std::path::PathBuf`: carried through the pipeline as an opaque value.
#[verifier::external_type_specification]
#[verifier::external_body]
pub struct ExPathBuf(std::path::PathBuf);

/// `imageproc`'s projective transform: carried as an opaque value.
#[verifier::external_type_specification]
#[verifier::external_body]
pub struct ExProjection(imageproc::geometric_transformations::Projection);

/// `std::io::Error`: held in an error variant, never inspected.
#[verifier::external_type_specification]
#[verifier::external_body]
pub struct ExIoError(std::io::Error);

/// `image::ImageError`: held in an error variant, never inspected.
#[verifier::external_type_specification]
#[verifier::external_body]
pub struct ExImageError(image::ImageError);

/// `PathBuf::clone` returns a path equal to the one it was called on.
pub assume_specification[ <std::path::PathBuf as core::clone::Clone>::clone ](
    p: &std::path::PathBuf,
) -> (r: std::path::PathBuf)
    ensures
        r == *p,
;

/// `usize::div_ceil`: the quotient rounded toward positive infinity; it
/// panics when the divisor is zero, so the divisor must be positive.
pub assume_specification[ <usize>::div_ceil ](x: usize, rhs: usize) -> (r: usize)
    requires
        rhs > 0,
    ensures
        r == (x + rhs - 1) / (rhs as int),
;

/// `u32::midpoint`: `(a + b) / 2` computed without overflow, rounded down.
pub assume_specification[ <u32>::midpoint ](a: u32, b: u32) -> (r: u32)
    ensures
        r == (a + b) / 2,
;

/// `u8::is_ascii_whitespace`: true exactly for space, tab, line feed,
/// form feed and carriage return.
pub assume_specification[ <u8>::is_ascii_whitespace ](b: &u8) -> (r: bool)
    ensures
        r == (*b == 0x20u8 || *b == 0x09u8 || *b == 0x0Au8 || *b == 0x0Cu8 || *b == 0x0Du8),
;

/// `u8::is_ascii_digit`: true exactly for the bytes `b'0'..=b'9'`.
pub assume_specification[ <u8>::is_ascii_digit ](b: &u8) -> (r: bool)
    ensures
        r == (0x30u8 <= *b && *b <= 0x39u8),
;

} // verus!


verus! {

/// `<[u32]>::sort_unstable`: sorts the values in ascending order; the
/// values themselves are only permuted.
#[verifier::external_body]
pub(crate) fn sort_unstable_u32(v: &mut Vec<u32>)
    ensures
        final(v)@.len() == old(v)@.len(),
        final(v)@.to_multiset() == old(v)@.to_multiset(),
        forall|i: int, j: int| 0 <= i < j < final(v)@.len() ==> final(v)@[i] <= final(v)@[j],
{
    v.sort_unstable();
}

} // verus!

verus! {

/// `imageproc::geometric_transformations::warp_into` with nearest-neighbour
/// interpolation and a white default, from a `src_w x src_h` grayscale
/// image into a fresh white `out_w x out_h` one (row-major buffers).
///
/// Nearest interpolation copies, for each output pixel, either the default
/// or one source pixel; that is all the contract says. Which source pixel
/// lands where depends on the floating-point projection and is not stated.
/// `warp_into` walks the output in rows of `out_w` pixels and panics on a
/// zero-width output, hence `out_w > 0`.
#[verifier::external_body]
pub(crate) fn warp_nearest_white(
    src: Vec<u8>,
    src_w: u32,
    src_h: u32,
    projection: &imageproc::geometric_transformations::Projection,
    out_w: u32,
    out_h: u32,
) -> (r: Vec<u8>)
    requires
        src@.len() == src_w * src_h,
        out_w > 0,
        out_w * out_h <= usize::MAX,
    ensures
        r@.len() == out_w * out_h,
        forall|i: int|
            0 <= i < r@.len() ==> #[trigger] r@[i] == 255u8 || exists|j: int|
                0 <= j < src@.len() && r@[i] == src@[j],
{
    let image = image::GrayImage::from_raw(src_w, src_h, src).expect("buffer length matches dimensions");
    let mut out = image::GrayImage::from_pixel(out_w, out_h, image::Luma([255]));
    imageproc::geometric_transformations::warp_into(
        &image,
        projection,
        imageproc::geometric_transformations::Interpolation::Nearest,
        image::Luma([255]),
        &mut out,
    );
    out.into_raw()
}

} // verus!

verus! {

/// `image::ImageReader::with_format(..).decode()` on the bytes, with the
/// format that `image::ImageFormat::from_extension` gives for `ext`, then
/// `to_luma8`. An extension that names no format is the same
/// `ImageError::Unsupported` that `ImageFormat::from_path` reports for it.
///
/// The result is named by [`decoded_luma8`]; the one fact stated besides is
/// that the gray buffer holds at least `width * height` bytes, which
/// `ImageBuffer` keeps as its invariant.
#[verifier::external_body]
pub(crate) fn decode_luma8(bytes: &[u8], ext: &str) -> (r: Result<(u32, u32, Vec<u8>), image::ImageError>)
    ensures
        r is Err <==> decoded_luma8(bytes@, ext@) is None,
        r matches Ok((w, h, g)) ==> decoded_luma8(bytes@, ext@) == Some((w, h, g@)) && g@.len() >= w * h,
{
    let format = image::ImageFormat::from_extension(ext).ok_or_else(
        || image::ImageError::Unsupported(image::error::ImageFormatHint::PathExtension(ext.into()).into()),
    )?;
    let reader = image::ImageReader::with_format(std::io::Cursor::new(bytes), format);
    let gray = reader.decode()?.to_luma8();
    let (width, height) = gray.dimensions();
    Ok((width, height, gray.into_raw()))
}

/// `image::write_buffer_with_format` of a `width x height` 8-bit luma
/// buffer into memory, in the format that `image::ImageFormat::from_extension`
/// gives for `ext` (the `ImageError::Unsupported` of
/// `ImageFormat::from_path` when it gives none). The encoders panic on a
/// buffer whose length is not `width * height`, hence the `requires`. The
/// bytes written are named by [`encoded_luma8`].
#[verifier::external_body]
pub(crate) fn encode_luma8(gray: &[u8], width: u32, height: u32, ext: &str) -> (r: Result<Vec<u8>, image::ImageError>)
    requires
        gray@.len() == width * height,
    ensures
        r is Err <==> encoded_luma8(gray@, width, height, ext@) is None,
        r matches Ok(b) ==> encoded_luma8(gray@, width, height, ext@) == Some(b@),
{
    let format = image::ImageFormat::from_extension(ext).ok_or_else(
        || image::ImageError::Unsupported(image::error::ImageFormatHint::PathExtension(ext.into()).into()),
    )?;
    let mut out = std::io::Cursor::new(Vec::new());
    image::write_buffer_with_format(&mut out, gray, width, height, image::ExtendedColorType::L8, format)?;
    Ok(out.into_inner())
}

/// `image::error::DecodingError::new` for the P4 format with the message
/// "malformed P4 header", wrapped as `image::ImageError::Decoding`: the
/// error a file that starts `P4` but does not decode is reported with.
/// Nothing is stated of it.
#[verifier::external_body]
pub(crate) fn malformed_p4_error() -> image::ImageError {
    image::ImageError::Decoding(
        image::error::DecodingError::new(image::error::ImageFormatHint::Name("P4 (PBM)".into()), "malformed P4 header"),
    )
}

} // verus!
