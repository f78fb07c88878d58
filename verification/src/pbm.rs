//! The PBM P4 codec and the bitonal checks of the page loader.
//!
//! A [`BitPage`]'s in-memory layout is the P4 pixel section itself, so
//! decoding is a header parse and a copy of the body, and encoding is a
//! header followed by the body.

use std::path::PathBuf;

use vstd::prelude::*;

use crate::bitplane::{packs_black, stride_for, BitPage, BitPageView};
use crate::error::RegisterError;
use crate::page::RawPage;
use crate::raster::{gray_row, pack_into_bitpage};
use crate::bitplane::{lemma_pixels_determine_bytes, lemma_row_in_bounds};
use vstd::arithmetic::div_mod::{lemma_fundamental_div_mod, lemma_fundamental_div_mod_converse};

verus! {

/// ASCII whitespace as `u8::is_ascii_whitespace` defines it.
pub open spec fn is_ws(b: u8) -> bool {
    b == 0x20u8 || b == 0x09u8 || b == 0x0Au8 || b == 0x0Cu8 || b == 0x0Du8
}

/// An ASCII decimal digit.
pub open spec fn is_digit(b: u8) -> bool {
    0x30u8 <= b <= 0x39u8
}

/// Where header skipping starting at `i` stops: the first byte that is
/// neither whitespace nor inside a `#` comment (which runs up to the next
/// line feed), or `None` when the data ends first.
pub open spec fn skip_blank(s: Seq<u8>, i: int, in_comment: bool) -> Option<int>
    decreases s.len() - i,
{
    if i < 0 || i >= s.len() {
        None
    } else if in_comment {
        if s[i] == 0x0Au8 {
            skip_blank(s, i + 1, false)
        } else {
            skip_blank(s, i + 1, true)
        }
    } else if s[i] == 0x23u8 {
        skip_blank(s, i + 1, true)
    } else if is_ws(s[i]) {
        skip_blank(s, i + 1, false)
    } else {
        Some(i)
    }
}

/// The end of the run of digits starting at `i`.
pub open spec fn digits_end(s: Seq<u8>, i: int) -> int
    decreases s.len() - i,
{
    if 0 <= i < s.len() && is_digit(s[i]) {
        digits_end(s, i + 1)
    } else {
        i
    }
}

/// The number a string of decimal digits spells.
pub open spec fn dec_value(d: Seq<u8>) -> nat
    decreases d.len(),
{
    if d.len() == 0 {
        0
    } else {
        dec_value(d.drop_last()) * 10 + (d.last() - 0x30u8) as nat
    }
}

/// A header number: blank and comments skipped, then a non-empty run of
/// digits whose value fits in `u32`; with the index just past it.
pub open spec fn parse_uint(s: Seq<u8>) -> Option<(u32, int)> {
    match skip_blank(s, 0, false) {
        None => None,
        Some(start) => {
            let end = digits_end(s, start);
            if end == start || dec_value(s.subrange(start, end)) > u32::MAX {
                None
            } else {
                Some((dec_value(s.subrange(start, end)) as u32, end))
            }
        },
    }
}

/// A P4 byte stream (the `P4` magic already checked) read as
/// `(width, height, pixel bytes)`: the two header numbers, one whitespace
/// byte, then `ceil(width / 8) * height` bytes (any further bytes are
/// ignored).
pub open spec fn p4_decode(s: Seq<u8>) -> Option<(u32, u32, Seq<u8>)> {
    match parse_uint(s.subrange(2, s.len() as int)) {
        None => None,
        Some((w, a1)) => {
            let c1 = 2 + a1;
            match parse_uint(s.subrange(c1, s.len() as int)) {
                None => None,
                Some((h, a2)) => {
                    let c2 = c1 + a2;
                    if c2 >= s.len() || !is_ws(s[c2]) {
                        None
                    } else {
                        let cursor = c2 + 1;
                        let expected = stride_for(w as nat) * h;
                        if expected > usize::MAX || s.len() - cursor < expected {
                            None
                        } else {
                            Some((w, h, s.subrange(cursor, cursor + expected)))
                        }
                    }
                },
            }
        },
    }
}

/// Starts with the P4 magic `P4`.
pub open spec fn is_p4(s: Seq<u8>) -> bool {
    s.len() >= 2 && s[0] == 0x50u8 && s[1] == 0x34u8
}

/// The decimal digits of `v`, most significant first, without leading
/// zeros.
pub open spec fn decimal(v: nat) -> Seq<u8>
    decreases v,
{
    if v < 10 {
        seq![(0x30 + v) as u8]
    } else {
        decimal(v / 10).push((0x30 + v % 10) as u8)
    }
}

/// The P4 encoding of a page: `P4\n{width} {height}\n` and the pixel bytes.
pub open spec fn p4_encode(v: BitPageView) -> Seq<u8> {
    seq![0x50u8, 0x34u8, 0x0Au8] + decimal(v.width) + seq![0x20u8] + decimal(v.height) + seq![0x0Au8]
        + v.bytes
}

// ---- lemmas on the header grammar.

/// `digits_end` moves past every digit of `s[i..j)`.
proof fn lemma_digits_end_skip(s: Seq<u8>, i: int, j: int)
    requires
        0 <= i <= j <= s.len(),
        forall|k: int| i <= k < j ==> is_digit(#[trigger] s[k]),
    ensures
        digits_end(s, i) == digits_end(s, j),
    decreases j - i,
{
    if i < j {
        lemma_digits_end_skip(s, i + 1, j);
    }
}

/// Appending a digit multiplies by ten and adds it.
proof fn lemma_dec_push(s: Seq<u8>, start: int, i: int)
    requires
        0 <= start <= i < s.len(),
    ensures
        dec_value(s.subrange(start, i + 1)) == dec_value(s.subrange(start, i)) * 10 + (s[i] - 0x30u8) as nat,
{
    assert(s.subrange(start, i + 1).drop_last() =~= s.subrange(start, i));
}

/// A longer run of digits is worth at least as much.
proof fn lemma_dec_monotone(s: Seq<u8>, start: int, i: int, e: int)
    requires
        0 <= start <= i <= e <= s.len(),
        forall|k: int| start <= k < e ==> is_digit(#[trigger] s[k]),
    ensures
        dec_value(s.subrange(start, e)) >= dec_value(s.subrange(start, i)),
    decreases e - i,
{
    if i < e {
        lemma_dec_monotone(s, start, i, e - 1);
        lemma_dec_push(s, start, e - 1);
    }
}

/// `decimal(v)` is a non-empty run of digits spelling `v`.
proof fn lemma_decimal(v: nat)
    ensures
        decimal(v).len() >= 1,
        forall|k: int| 0 <= k < decimal(v).len() ==> is_digit(#[trigger] decimal(v)[k]),
        dec_value(decimal(v)) == v,
    decreases v,
{
    if v >= 10 {
        lemma_decimal(v / 10);
        assert(decimal(v).drop_last() =~= decimal(v / 10));
        assert(decimal(v).last() - 0x30u8 == v % 10);
        assert(decimal(v).len() > 0);
        assert(dec_value(decimal(v)) == dec_value(decimal(v).drop_last()) * 10 + (decimal(v).last()
            - 0x30u8) as nat);
        assert(v == (v / 10) * 10 + v % 10);
    } else {
        assert(decimal(v).last() - 0x30u8 == v);
        assert(decimal(v).drop_last() =~= Seq::<u8>::empty());
        assert(dec_value(decimal(v)) == dec_value(decimal(v).drop_last()) * 10 + (decimal(v).last()
            - 0x30u8) as nat);
    }
}

/// `sep`, the digits of `v`, then a non-digit parse as `v`.
proof fn lemma_parse_framed(t: Seq<u8>, sep: u8, v: nat, rest: Seq<u8>)
    requires
        is_ws(sep),
        v <= u32::MAX,
        t == seq![sep] + decimal(v) + rest,
        rest.len() > 0,
        !is_digit(rest[0]),
    ensures
        parse_uint(t) == Some((v as u32, 1 + decimal(v).len() as int)),
{
    lemma_decimal(v);
    let d = decimal(v);
    let end: int = 1 + d.len() as int;
    assert(t[0] == sep);
    assert(t[1] == d[0]);
    assert(skip_blank(t, 1, false) == Some(1int));
    assert(skip_blank(t, 0, false) == Some(1int));
    assert forall|k: int| 1 <= k < end implies is_digit(#[trigger] t[k]) by {
        assert(t[k] == d[k - 1]);
    }
    lemma_digits_end_skip(t, 1, end);
    assert(t[end] == rest[0]);
    assert(digits_end(t, end) == end);
    assert(t.subrange(1, end) =~= d);
}

/// Decoding an encoded page gives the page back, whatever bytes follow the
/// pixel section: the header is read back exactly and the pixel section is
/// taken verbatim, trailing bytes dropped.
pub proof fn lemma_p4_roundtrip(v: BitPageView, extra: Seq<u8>)
    requires
        v.wf(),
        v.bytes.len() <= usize::MAX,
    ensures
        is_p4(p4_encode(v) + extra),
        p4_decode(p4_encode(v) + extra) == Some((v.width as u32, v.height as u32, v.bytes)),
{
    let s = p4_encode(v) + extra;
    lemma_decimal(v.width);
    lemma_decimal(v.height);
    let dw = decimal(v.width);
    let dh = decimal(v.height);
    let rest1 = seq![0x20u8] + dh + seq![0x0Au8] + v.bytes + extra;
    let t1 = s.subrange(2, s.len() as int);
    assert(t1 =~= seq![0x0Au8] + dw + rest1);
    lemma_parse_framed(t1, 0x0Au8, v.width, rest1);
    let c1: int = 3 + dw.len() as int;
    let rest2 = seq![0x0Au8] + v.bytes + extra;
    let t2 = s.subrange(c1, s.len() as int);
    assert(t2 =~= seq![0x20u8] + dh + rest2);
    lemma_parse_framed(t2, 0x20u8, v.height, rest2);
    let c2: int = c1 + 1 + dh.len() as int;
    assert(s[c2] == 0x0Au8);
    let cursor: int = c2 + 1;
    assert(s.subrange(cursor, cursor + v.bytes.len() as int) =~= v.bytes);
}

// ---- the codec.

/// Parse an unsigned header number after optional whitespace and `#`
/// comments; return it with the index just past its last digit.
fn read_pbm_uint_after_whitespace(s: &[u8]) -> (r: Option<(u32, usize)>)
    ensures
        r is None <==> parse_uint(s@) is None,
        r matches Some((v, end)) ==> end <= s@.len() && parse_uint(s@) == Some((v, end as int)),
{
    let n = s.len();
    let mut i: usize = 0;
    loop
        invariant
            n == s@.len(),
            i <= n,
            skip_blank(s@, 0, false) == skip_blank(s@, i as int, false),
        ensures
            i < n,
            skip_blank(s@, 0, false) == Some(i as int),
        decreases n - i,
    {
        if i >= n {
            return None;
        }
        let b = s[i];
        if b == 0x23u8 {
            let i0 = i;
            while i < n && s[i] != 0x0Au8
                invariant
                    n == s@.len(),
                    i0 <= i <= n,
                    i0 < n,
                    s@[i0 as int] == 0x23u8,
                    skip_blank(s@, 0, false) == skip_blank(s@, i as int, true),
                decreases n - i,
            {
                i = i + 1;
            }
            if i >= n {
                return None;
            }
        } else if b.is_ascii_whitespace() {
            i = i + 1;
        } else {
            break;
        }
    }
    let start = i;
    let mut value: u32 = 0;
    while i < n && s[i].is_ascii_digit()
        invariant
            n == s@.len(),
            start <= i <= n,
            skip_blank(s@, 0, false) == Some(start as int),
            forall|k: int| start <= k < i ==> is_digit(#[trigger] s@[k]),
            value == dec_value(s@.subrange(start as int, i as int)),
        decreases n - i,
    {
        let d = s[i] - 0x30u8;
        proof {
            lemma_dec_push(s@, start as int, i as int);
        }
        match value.checked_mul(10) {
            None => {
                proof {
                    lemma_overflow_none(s@, start as int, i as int);
                }
                return None;
            },
            Some(tens) => match tens.checked_add(d as u32) {
                None => {
                    proof {
                        lemma_overflow_none(s@, start as int, i as int);
                    }
                    return None;
                },
                Some(next) => {
                    value = next;
                },
            },
        }
        i = i + 1;
    }
    proof {
        lemma_digits_end_skip(s@, start as int, i as int);
    }
    if i == start {
        return None;
    }
    Some((value, i))
}

/// A run of digits whose prefix up to `i` already exceeds `u32::MAX`
/// does not parse.
proof fn lemma_overflow_none(s: Seq<u8>, start: int, i: int)
    requires
        skip_blank(s, 0, false) == Some(start),
        0 <= start <= i < s.len(),
        forall|k: int| start <= k <= i ==> is_digit(#[trigger] s[k]),
        dec_value(s.subrange(start, i + 1)) > u32::MAX,
    ensures
        parse_uint(s) is None,
{
    lemma_digits_run(s, i + 1);
    lemma_digits_end_skip(s, start, i + 1);
    let e = digits_end(s, start);
    assert forall|k: int| start <= k < e implies is_digit(#[trigger] s[k]) by {
        if k > i {
            assert(i + 1 <= k < digits_end(s, i + 1));
        }
    }
    lemma_dec_monotone(s, start, i + 1, e);
}

/// Every byte of the run that `digits_end` measures is a digit, and the run
/// reaches past `i`.
proof fn lemma_digits_run(s: Seq<u8>, i: int)
    requires
        0 <= i <= s.len(),
    ensures
        i <= digits_end(s, i) <= s.len(),
        forall|k: int| i <= k < digits_end(s, i) ==> is_digit(#[trigger] s[k]),
    decreases s.len() - i,
{
    if i < s.len() && is_digit(s[i]) {
        lemma_digits_run(s, i + 1);
    }
}

/// Decode a P4 PBM byte stream into a page. Parsing the header costs a
/// handful of bytes; the pixel section is taken as-is.
pub fn decode_p4(bytes: Vec<u8>) -> (r: Option<BitPage>)
    requires
        bytes@.len() >= 2,
    ensures
        match p4_decode(bytes@) {
            None => r is None,
            Some((w, h, body)) => r matches Some(p) && p.wf() && p@.width == w && p@.height == h
                && p@.bytes == body,
        },
{
    let ghost s = bytes@;
    let n = bytes.len();
    let mut cursor: usize = 2;
    let head = &bytes.as_slice()[cursor..n];
    proof {
        assert(head@ == s.subrange(2, s.len() as int));
    }
    let (width, advanced) = read_pbm_uint_after_whitespace(head)?;
    cursor = cursor + advanced;
    let ghost c1 = cursor as int;
    let head = &bytes.as_slice()[cursor..n];
    proof {
        assert(head@ == s.subrange(c1, s.len() as int));
    }
    let (height, advanced) = read_pbm_uint_after_whitespace(head)?;
    cursor = cursor + advanced;
    if cursor >= n {
        return None;
    }
    let first_pixel_byte = bytes[cursor];
    if !first_pixel_byte.is_ascii_whitespace() {
        return None;
    }
    cursor = cursor + 1;
    let width_us = width as usize;
    let height_us = height as usize;
    let stride = width_us.div_ceil(8);
    let expected = stride.checked_mul(height_us)?;
    if n - cursor < expected {
        return None;
    }
    let mut bytes = bytes;
    let mut body = bytes.split_off(cursor);
    body.truncate(expected);
    proof {
        assert(body@ =~= s.subrange(cursor as int, cursor + expected));
    }
    Some(BitPage::from_packed(body, width, height))
}

/// Append the decimal digits of `v`.
fn push_decimal(out: &mut Vec<u8>, v: u32)
    ensures
        final(out)@ == old(out)@ + decimal(v as nat),
    decreases v,
{
    if v >= 10 {
        push_decimal(out, v / 10);
    }
    out.push(0x30u8 + (v % 10) as u8);
    proof {
        if v >= 10 {
            assert(decimal(v as nat) == decimal((v / 10) as nat).push((0x30 + v % 10) as u8));
        }
    }
}

/// Encode a page as a P4 PBM byte stream.
pub fn encode_p4(bits: &BitPage) -> (r: Vec<u8>)
    requires
        bits.wf(),
    ensures
        r@ == p4_encode(bits@),
{
    let body = bits.bytes();
    let mut payload: Vec<u8> = Vec::new();
    payload.push(0x50u8);
    payload.push(0x34u8);
    payload.push(0x0Au8);
    push_decimal(&mut payload, bits.width());
    payload.push(0x20u8);
    push_decimal(&mut payload, bits.height());
    payload.push(0x0Au8);
    let ghost header = payload@;
    let mut i: usize = 0;
    while i < body.len()
        invariant
            i <= body@.len(),
            payload@ == header + body@.subrange(0, i as int),
        decreases body@.len() - i,
    {
        payload.push(body[i]);
        proof {
            assert(body@.subrange(0, i + 1) =~= body@.subrange(0, i as int).push(body@[i as int]));
        }
        i = i + 1;
    }
    proof {
        assert(body@.subrange(0, body@.len() as int) =~= body@);
        assert(header =~= seq![0x50u8, 0x34u8, 0x0Au8] + decimal(bits@.width) + seq![0x20u8]
            + decimal(bits@.height) + seq![0x0Au8]);
    }
    payload
}

/// Every gray value is `0` or `255`.
pub open spec fn bitonal(gray: Seq<u8>) -> bool {
    forall|i: int| 0 <= i < gray.len() ==> #[trigger] gray[i] == 0u8 || gray[i] == 255u8
}

/// Whether every gray pixel is `0` or `255`.
pub fn is_effectively_bitonal(gray: &[u8]) -> (r: bool)
    ensures
        r == bitonal(gray@),
{
    let mut i: usize = 0;
    while i < gray.len()
        invariant
            i <= gray@.len(),
            forall|j: int| 0 <= j < i ==> #[trigger] gray@[j] == 0u8 || gray@[j] == 255u8,
        decreases gray@.len() - i,
    {
        if gray[i] != 0 && gray[i] != 255 {
            return false;
        }
        i = i + 1;
    }
    true
}

/// Pack a `width x height` row-major grayscale buffer into a page. A pixel
/// of a whole byte is black when its gray value is below 128, one of the
/// trailing partial byte when it is `0`; so on bitonal input a pixel is
/// black exactly when its gray value is `0`.
pub fn bit_pack_grayscale(gray: &[u8], width: u32, height: u32) -> (r: BitPage)
    requires
        gray@.len() == width * height,
        stride_for(width as nat) * height <= usize::MAX,
    ensures
        r.wf(),
        r@.width == width,
        r@.height == height,
        r@.padding_clear(),
        forall|x: int, y: int|
            0 <= y < height && 0 <= x < width ==> #[trigger] r@.pixel(x, y) == packs_black(
                gray_row(gray@, width as int, y),
                x,
                width as int,
            ),
        bitonal(gray@) ==> forall|x: int, y: int|
            0 <= y < height && 0 <= x < width ==> #[trigger] r@.pixel(x, y) == (gray@[y * width + x]
                == 0u8),
{
    let mut page = BitPage::new_white(width, height);
    pack_into_bitpage(gray, &mut page);
    proof {
        let w = width as int;
        if bitonal(gray@) {
            assert forall|x: int, y: int|
                0 <= y < height && 0 <= x < width implies #[trigger] page@.pixel(x, y) == (gray@[y * w
                    + x] == 0u8) by {
                lemma_row_in_bounds(y, w, height as int);
                assert(gray_row(gray@, w, y)[x] == gray@[y * w + x]);
            }
        }
    }
    page
}

/// Validate a decoded grayscale image and pack it into a raw page:
/// [`RegisterError::NotBitonal`] when some pixel is neither `0` nor `255`.
pub fn raw_from_gray(gray: &[u8], width: u32, height: u32, path: PathBuf, index: usize) -> (r: Result<
    RawPage,
    RegisterError,
>)
    requires
        gray@.len() == width * height,
        stride_for(width as nat) * height <= usize::MAX,
    ensures
        bitonal(gray@) <==> r is Ok,
        r matches Err(e) ==> e matches RegisterError::NotBitonal { path: p } && p == path,
        r matches Ok(raw) ==> {
            &&& raw.wf()
            &&& raw@.source == path
            &&& raw@.index == index
            &&& raw@.bits.width == width
            &&& raw@.bits.height == height
            &&& raw@.bits.padding_clear()
            &&& raw@.bits.gray() == gray@
        },
{
    if !is_effectively_bitonal(gray) {
        return Err(RegisterError::NotBitonal { path });
    }
    let bp = bit_pack_grayscale(gray, width, height);
    proof {
        lemma_gray_roundtrip(gray@, bp@);
    }
    Ok(RawPage::from_validated(bp, path, index))
}

/// Packing a bitonal gray image and unpacking it again gives the image
/// back.
pub proof fn lemma_gray_roundtrip(gray: Seq<u8>, v: BitPageView)
    requires
        bitonal(gray),
        gray.len() == v.width * v.height,
        forall|x: int, y: int|
            0 <= y < v.height && 0 <= x < v.width ==> #[trigger] v.pixel(x, y) == (gray[y * v.width + x]
                == 0u8),
    ensures
        v.gray() == gray,
{
    assert forall|i: int| 0 <= i < gray.len() implies #[trigger] v.gray()[i] == gray[i] by {
        let w = v.width as int;
        assert(w > 0) by (nonlinear_arith)
            requires
                0 <= i < w * v.height,
        ;
        let y = i / w;
        let x = i % w;
        lemma_fundamental_div_mod(i, w);
        assert(0 <= y < v.height) by (nonlinear_arith)
            requires
                i == w * y + x,
                0 <= x < w,
                0 <= i < w * v.height,
        ;
        assert(i == y * w + x) by (nonlinear_arith)
            requires
                i == w * y + x,
        ;
        assert(v.pixel(x, y) == (gray[i] == 0u8));
    }
    assert(v.gray() =~= gray);
}

/// Unpacking a page to gray and packing that gray image again gives the
/// page back, byte for byte, when its padding bits are clear. The result of
/// packing is given by what [`bit_pack_grayscale`] ensures of it.
pub proof fn lemma_unpack_pack_page(v: BitPageView, w: BitPageView)
    requires
        v.wf(),
        w.wf(),
        w.width == v.width,
        w.height == v.height,
        v.padding_clear(),
        w.padding_clear(),
        forall|x: int, y: int|
            0 <= y < v.height && 0 <= x < v.width ==> #[trigger] w.pixel(x, y) == packs_black(
                gray_row(v.gray(), v.width as int, y),
                x,
                v.width as int,
            ),
    ensures
        w.bytes == v.bytes,
{
    let wd = v.width as int;
    assert forall|x: int, y: int| 0 <= y < v.height && 0 <= x < v.width implies #[trigger] w.pixel(x, y)
        == v.pixel(x, y) by {
        let i = y * wd + x;
        lemma_row_in_bounds(y, wd, v.height as int);
        lemma_fundamental_div_mod_converse(i, wd, y, x);
        assert(gray_row(v.gray(), wd, y)[x] == v.gray()[i]);
        assert(v.gray()[i] == if v.pixel(x, y) {
            0u8
        } else {
            255u8
        });
    }
    lemma_pixels_determine_bytes(v, w);
}

} // verus!
