//! Page files as bytes: a P4 bitmap is read and written by the library's
//! own codec, taken verbatim; other formats go through the `image` crate,
//! and a decoded page must be bitonal.

use std::path::PathBuf;

use vstd::prelude::*;
use vstd::string::StringSliceAdditionalSpecFns;

use crate::bitplane::{stride_for, BitPage};
use crate::error::RegisterError;
use crate::foreign::{decode_luma8, encode_luma8, malformed_p4_error};
use crate::page::RawPage;
use crate::pbm::{bitonal, decode_p4, encode_p4, is_p4, p4_decode, p4_encode, raw_from_gray};
use crate::raster::bit_unpack_to_grayscale;

verus! {

/// What the `image` crate decodes from `bytes`, read as the format that the
/// file extension `ext` names (in any case) and converted to 8-bit luma:
/// width, height and the row-major gray buffer. `None` where it reports an
/// error, among others for an extension that names no format it reads.
pub uninterp spec fn decoded_luma8(bytes: Seq<u8>, ext: Seq<char>) -> Option<(u32, u32, Seq<u8>)>;

/// What the `image` crate writes for a `width x height` 8-bit luma buffer
/// in the format that the file extension `ext` names (in any case). `None`
/// where it reports an error, among others for an extension that names no
/// format it writes.
pub uninterp spec fn encoded_luma8(gray: Seq<u8>, width: u32, height: u32, ext: Seq<char>) -> Option<
    Seq<u8>,
>;

/// What loading a decoded `width x height` gray image gives: the packed
/// page when every pixel is `0` or `255`, [`RegisterError::NotBitonal`]
/// otherwise.
pub open spec fn loaded_from_gray(
    r: Result<RawPage, RegisterError>,
    gray: Seq<u8>,
    width: u32,
    height: u32,
    path: PathBuf,
    index: usize,
) -> bool {
    if bitonal(gray) {
        r matches Ok(raw) && {
            &&& raw.wf()
            &&& raw@.source == path
            &&& raw@.index == index
            &&& raw@.bits.width == width
            &&& raw@.bits.height == height
            &&& raw@.bits.padding_clear()
            &&& raw@.bits.gray() == gray
        }
    } else {
        r matches Err(RegisterError::NotBitonal { path: p }) && p == path
    }
}

/// `r` is [`RegisterError::Image`] for `path`.
pub open spec fn image_error_for(r: Result<RawPage, RegisterError>, path: PathBuf) -> bool {
    r matches Err(RegisterError::Image { path: p, .. }) && p == path
}

/// ASCII lower case of a byte; other bytes are kept.
pub open spec fn ascii_lower(b: u8) -> u8 {
    if 0x41u8 <= b && b <= 0x5Au8 {
        (b + 0x20) as u8
    } else {
        b
    }
}

/// Whether the UTF-8 bytes of an extension spell `pbm` in any ASCII case.
pub open spec fn is_pbm_extension(e: Seq<u8>) -> bool {
    &&& e.len() == 3
    &&& ascii_lower(e[0]) == 0x70u8
    &&& ascii_lower(e[1]) == 0x62u8
    &&& ascii_lower(e[2]) == 0x6Du8
}

/// Whether a page saved under a path with extension `ext` is written as
/// P4: a path with no (UTF-8) extension, or the extension `pbm`.
pub open spec fn saved_as_p4(ext: Option<&str>) -> bool {
    match ext {
        None => true,
        Some(e) => is_pbm_extension(e.spec_bytes()),
    }
}

fn lower(b: u8) -> (r: u8)
    ensures
        r == ascii_lower(b),
{
    if 0x41u8 <= b && b <= 0x5Au8 {
        b + 0x20
    } else {
        b
    }
}

/// Whether a page saved under a path with extension `ext` (`None` when the
/// path has none, or one that is not UTF-8) is written as P4.
pub fn writes_p4(ext: Option<&str>) -> (r: bool)
    ensures
        r == saved_as_p4(ext),
{
    match ext {
        None => true,
        Some(e) => {
            let b = e.as_bytes();
            b.len() == 3 && lower(b[0]) == 0x70u8 && lower(b[1]) == 0x62u8 && lower(b[2]) == 0x6Du8
        },
    }
}

/// A `width`-pixel-wide page of `len / width` rows or fewer packs into no
/// more bytes than the gray buffer holds.
proof fn lemma_packed_fits(width: nat, height: nat, len: nat)
    requires
        width * height <= len,
    ensures
        stride_for(width) * height <= len,
{
    assert(stride_for(width) <= width);
    assert(stride_for(width) * height <= width * height) by (nonlinear_arith)
        requires
            stride_for(width) <= width,
    ;
}

/// Turn what the `image` crate decoded into a raw page: its error becomes
/// [`RegisterError::Image`]; of the gray buffer the first `width * height`
/// bytes are the image, which must be bitonal.
pub fn page_from_luma8(
    decoded: Result<(u32, u32, Vec<u8>), image::ImageError>,
    path: PathBuf,
    index: usize,
) -> (r: Result<RawPage, RegisterError>)
    requires
        decoded matches Ok((w, h, g)) ==> g@.len() >= w * h,
    ensures
        match decoded {
            Err(_) => image_error_for(r, path),
            Ok((w, h, g)) => loaded_from_gray(r, g@.take(w * h), w, h, path, index),
        },
{
    match decoded {
        Err(source) => Err(RegisterError::Image { path, source }),
        Ok((width, height, gray)) => {
            let n = gray.len();
            proof {
                lemma_packed_fits(width as nat, height as nat, n as nat);
            }
            let total = width as usize * height as usize;
            let pixels = &gray.as_slice()[0..total];
            proof {
                assert(pixels@ == gray@.take(width * height));
            }
            raw_from_gray(pixels, width, height, path, index)
        },
    }
}

/// Decode a page file's bytes. A file that starts `P4` is a P4 bitmap,
/// decoded by the library and taken verbatim ([`RegisterError::Image`] when
/// its header is malformed); anything else is decoded by the `image` crate
/// as the format that the path's extension `ext` names (`""` for a path
/// without one) and must be bitonal: the loader never binarises.
pub fn load_page_bytes(bytes: Vec<u8>, ext: &str, path: PathBuf, index: usize) -> (r: Result<
    RawPage,
    RegisterError,
>)
    ensures
        is_p4(bytes@) ==> match p4_decode(bytes@) {
            Some((w, h, body)) => r matches Ok(raw) && {
                &&& raw.wf()
                &&& raw@.source == path
                &&& raw@.index == index
                &&& raw@.bits.width == w
                &&& raw@.bits.height == h
                &&& raw@.bits.bytes == body
            },
            None => image_error_for(r, path),
        },
        !is_p4(bytes@) ==> match decoded_luma8(bytes@, ext@) {
            None => image_error_for(r, path),
            Some((w, h, g)) => loaded_from_gray(r, g.take(w * h), w, h, path, index),
        },
{
    if bytes.len() >= 2 && bytes[0] == 0x50u8 && bytes[1] == 0x34u8 {
        match decode_p4(bytes) {
            Some(bits) => Ok(RawPage::from_validated(bits, path, index)),
            None => Err(RegisterError::Image { path, source: malformed_p4_error() }),
        }
    } else {
        let decoded = decode_luma8(bytes.as_slice(), ext);
        page_from_luma8(decoded, path, index)
    }
}

/// Encode a page for a path with extension `ext` (`None` when the path has
/// none, or one that is not UTF-8): P4 for no extension or `pbm`, in any
/// case; otherwise the page unpacked to 8-bit gray (`0` black, `255` white)
/// and encoded by the `image` crate in the format the extension names.
pub fn encode_page(bits: &BitPage, ext: Option<&str>) -> (r: Result<Vec<u8>, image::ImageError>)
    requires
        bits.wf(),
        !saved_as_p4(ext) ==> bits@.width * bits@.height <= u32::MAX,
    ensures
        saved_as_p4(ext) ==> (r matches Ok(b) && b@ == p4_encode(bits@)),
        match ext {
            Some(e) => !saved_as_p4(ext) ==> {
                let gray = bits@.gray();
                let w = bits@.width as u32;
                let h = bits@.height as u32;
                &&& r is Err <==> encoded_luma8(gray, w, h, e@) is None
                &&& r matches Ok(b) ==> encoded_luma8(gray, w, h, e@) == Some(b@)
            },
            None => true,
        },
{
    match ext {
        Some(e) if !writes_p4(ext) => {
            let gray = bit_unpack_to_grayscale(bits);
            encode_luma8(gray.as_slice(), bits.width(), bits.height(), e)
        },
        _ => Ok(encode_p4(bits)),
    }
}

} // verus!
