//! Locate a page's main text column from its bit-packed buffer.
//!
//! Operates directly on a [`BitPage`]'s bytes: per row the first and last
//! non-zero bytes are found, then `leading_zeros` / `trailing_zeros` narrow
//! them down to a pixel position.

use vstd::prelude::*;
use vstd::std_specs::bits::{u8_leading_zeros, u8_trailing_zeros, axiom_u8_leading_zeros, axiom_u8_trailing_zeros};

use crate::bitplane::{bit_at, BitPage, BitPageView, lemma_row_in_bounds};
use crate::page::{into_analyzed, AnalyzedPage, BoundingBox, PageLayout, Parity, RawPage};

verus! {

/// A set bit at position `x` of row `y`, counted over the whole packed row
/// (the padding bits past the width included).
pub open spec fn ink(v: BitPageView, x: int, y: int) -> bool {
    0 <= y < v.height && 0 <= x < v.stride * 8 && v.pixel(x, y)
}

/// Pixel `(x, y)` is on the page and black.
pub open spec fn black(v: BitPageView, x: int, y: int) -> bool {
    v.in_bounds(x, y) && v.pixel(x, y)
}

/// The page holds at least one set bit.
pub open spec fn has_ink(v: BitPageView) -> bool {
    exists|x: int, y: int| ink(v, x, y)
}

/// `x` clipped to the last pixel column.
pub open spec fn clip_x(v: BitPageView, x: int) -> int {
    if x < v.width {
        x
    } else {
        v.width - 1
    }
}

/// `(left, top, right, bottom)` are the extreme coordinates of the set bits:
/// the least and greatest row, the least column, and the greatest column
/// once clipped to the page width. Each is reached by some set bit.
pub open spec fn is_ink_extent(v: BitPageView, e: (int, int, int, int)) -> bool {
    &&& (exists|y: int| ink(v, e.0, y))
    &&& (forall|x: int, y: int| ink(v, x, y) ==> e.0 <= x)
    &&& (exists|x: int| ink(v, x, e.1))
    &&& (forall|x: int, y: int| ink(v, x, y) ==> e.1 <= y)
    &&& (exists|x: int, y: int| ink(v, x, y) && clip_x(v, x) == e.2)
    &&& (forall|x: int, y: int| ink(v, x, y) ==> clip_x(v, x) <= e.2)
    &&& (exists|x: int| ink(v, x, e.3))
    &&& (forall|x: int, y: int| ink(v, x, y) ==> y <= e.3)
}

/// The extreme coordinates of the page's set bits (meaningful when the
/// page has ink).
pub open spec fn ink_extent(v: BitPageView) -> (int, int, int, int) {
    choose|e: (int, int, int, int)| is_ink_extent(v, e)
}

/// The box spanning an extent. Coordinates are truncated to `u32` as the
/// computation does; on a page whose padding bits are clear no truncation
/// happens (see [`lemma_clean_page_box`]).
pub open spec fn box_of_extent(e: (int, int, int, int)) -> BoundingBox {
    BoundingBox {
        x: e.0 as u32,
        y: e.1 as u32,
        width: (e.2 - e.0 + 1) as u32,
        height: (e.3 - e.1 + 1) as u32,
    }
}

/// The bounding box [`analyze`] reports for a page with ink.
pub open spec fn ink_box(v: BitPageView) -> BoundingBox {
    box_of_extent(ink_extent(v))
}

/// Analyze a single page: detect its main column bounding box and parity.
///
/// Returns `Err(raw)`, handing the page back, when no ink is present.
pub fn analyze(raw: RawPage) -> (r: Result<AnalyzedPage, RawPage>)
    requires
        raw.wf(),
    ensures
        has_ink(raw@.bits) ==> is_ink_extent(raw@.bits, ink_extent(raw@.bits)),
        match r {
            Ok(a) => {
                &&& has_ink(raw@.bits)
                &&& a@.raw == raw@
                &&& a@.layout.main_column == ink_box(raw@.bits)
                &&& a@.layout.pillars@.len() == 0
                &&& a@.parity == Parity::of_index(raw@.index as int)
            },
            Err(back) => !has_ink(raw@.bits) && back@ == raw@,
        },
{
    let bbox = ink_bounding_box(raw.bits());
    match bbox {
        None => Err(raw),
        Some(bbox) => {
            let parity = Parity::from_index(raw.index());
            let layout = PageLayout { main_column: bbox, pillars: Vec::new() };
            Ok(into_analyzed(raw, layout, parity))
        },
    }
}

/// `b & 1` is nonzero exactly when it is one.
proof fn lemma_low_bit(b: u8)
    by (bit_vector)
    ensures
        ((b & 1u8) != 0u8) == ((b & 1u8) == 1u8),
{
}

/// No bit of a zero byte is set.
proof fn lemma_bit_at_zero(k: int)
    requires
        0 <= k < 8,
    ensures
        !bit_at(0u8, k),
{
    let kk = k as u8;
    assert((0u8 >> ((7 - kk) as u8)) & 1u8 != 1u8) by (bit_vector)
        requires
            kk < 8,
    ;
}

/// The first set bit of byte `b`, most significant first, is its number of
/// leading zeros.
proof fn lemma_first_bit(b: u8)
    requires
        b != 0,
    ensures
        u8_leading_zeros(b) < 8,
        bit_at(b, u8_leading_zeros(b) as int),
        forall|k: int| 0 <= k < u8_leading_zeros(b) ==> !bit_at(b, k),
{
    axiom_u8_leading_zeros(b);
    let lz = u8_leading_zeros(b);
    let s = (7 - lz) as u8;
    lemma_low_bit(b >> s);
    assert forall|k: int| 0 <= k < u8_leading_zeros(b) implies !bit_at(b, k) by {
        let j = (7 - k) as u8;
        assert((b >> j) & 1u8 == 0u8);
    }
}

/// The last set bit of byte `b`, most significant first, sits at
/// `7 - trailing_zeros(b)`.
proof fn lemma_last_bit(b: u8)
    requires
        b != 0,
    ensures
        u8_trailing_zeros(b) < 8,
        bit_at(b, 7 - u8_trailing_zeros(b)),
        forall|k: int| 7 - u8_trailing_zeros(b) < k < 8 ==> !bit_at(b, k),
{
    axiom_u8_trailing_zeros(b);
    let tz = u8_trailing_zeros(b);
    assert forall|k: int| 7 - u8_trailing_zeros(b) < k < 8 implies !bit_at(b, k) by {
        let j = (7 - k) as u8;
        assert((b >> j) & 1u8 == 0u8);
    }
}

/// Pixel `x` of row `y` lives in byte `x / 8` of the row, at bit `x % 8`.
proof fn lemma_pixel_byte(v: BitPageView, x: int, y: int, i: int, k: int)
    requires
        x == 8 * i + k,
        0 <= k < 8,
        0 <= i,
    ensures
        v.pixel(x, y) == bit_at(v.bytes[y * v.stride + i], k),
{
    assert(x / 8 == i && x % 8 == k);
}

/// Facts about the set bits of row `y` from its first non-zero byte `i`.
proof fn lemma_row_first(v: BitPageView, y: int, i: int)
    requires
        v.wf(),
        0 <= y < v.height,
        0 <= i < v.stride,
        v.bytes[y * v.stride + i] != 0,
        forall|k: int| 0 <= k < i ==> #[trigger] v.bytes[y * v.stride + k] == 0,
    ensures
        ink(v, 8 * i + u8_leading_zeros(v.bytes[y * v.stride + i]), y),
        forall|x: int| #[trigger] ink(v, x, y) ==> 8 * i + u8_leading_zeros(v.bytes[y * v.stride + i]) <= x,
{
    let b = v.bytes[y * v.stride + i];
    lemma_first_bit(b);
    let lz = u8_leading_zeros(b) as int;
    lemma_pixel_byte(v, 8 * i + lz, y, i, lz);
    assert forall|x: int| #[trigger] ink(v, x, y) implies 8 * i + lz <= x by {
        let q = x / 8;
        let m = x % 8;
        lemma_pixel_byte(v, x, y, q, m);
        if q < i {
            lemma_bit_at_zero(m);
        }
    }
}

/// Facts about the set bits of row `y` from its last non-zero byte `j`.
proof fn lemma_row_last(v: BitPageView, y: int, j: int)
    requires
        v.wf(),
        0 <= y < v.height,
        0 <= j < v.stride,
        v.bytes[y * v.stride + j] != 0,
        forall|k: int| j < k < v.stride ==> #[trigger] v.bytes[y * v.stride + k] == 0,
    ensures
        ink(v, 8 * j + 7 - u8_trailing_zeros(v.bytes[y * v.stride + j]), y),
        forall|x: int| #[trigger] ink(v, x, y) ==> x <= 8 * j + 7 - u8_trailing_zeros(v.bytes[y * v.stride + j]),
{
    let b = v.bytes[y * v.stride + j];
    lemma_last_bit(b);
    let tz = u8_trailing_zeros(b) as int;
    lemma_pixel_byte(v, 8 * j + 7 - tz, y, j, 7 - tz);
    assert forall|x: int| #[trigger] ink(v, x, y) implies x <= 8 * j + 7 - tz by {
        let q = x / 8;
        let m = x % 8;
        lemma_pixel_byte(v, x, y, q, m);
        if q > j {
            lemma_bit_at_zero(m);
        }
    }
}

/// A row whose bytes are all zero holds no set bit.
proof fn lemma_row_empty(v: BitPageView, y: int)
    requires
        v.wf(),
        0 <= y < v.height,
        forall|k: int| 0 <= k < v.stride ==> #[trigger] v.bytes[y * v.stride + k] == 0,
    ensures
        forall|x: int| !#[trigger] ink(v, x, y),
{
    assert forall|x: int| !#[trigger] ink(v, x, y) by {
        if 0 <= x < v.stride * 8 {
            let q = x / 8;
            let m = x % 8;
            lemma_pixel_byte(v, x, y, q, m);
            lemma_bit_at_zero(m);
        }
    }
}

/// Two extents of the same page are equal.
proof fn lemma_extent_unique(v: BitPageView, a: (int, int, int, int), b: (int, int, int, int))
    requires
        is_ink_extent(v, a),
        is_ink_extent(v, b),
    ensures
        a == b,
{
    let ya = choose|y: int| ink(v, a.0, y);
    let yb = choose|y: int| ink(v, b.0, y);
    assert(a.0 <= b.0 && b.0 <= a.0);
    let xa = choose|x: int| ink(v, x, a.1);
    let xb = choose|x: int| ink(v, x, b.1);
    assert(a.1 <= b.1 && b.1 <= a.1);
    let xa3 = choose|x: int| ink(v, x, a.3);
    let xb3 = choose|x: int| ink(v, x, b.3);
    assert(a.3 <= b.3 && b.3 <= a.3);
    let (xa2, ya2) = choose|x: int, y: int| ink(v, x, y) && clip_x(v, x) == a.2;
    let (xb2, yb2) = choose|x: int, y: int| ink(v, x, y) && clip_x(v, x) == b.2;
    assert(a.2 <= b.2 && b.2 <= a.2);
}

/// On a page whose padding bits are clear, the box of a page with ink is
/// the tightest box enclosing every black pixel: each black pixel lies
/// inside it, and each of its four edges touches a black pixel.
pub proof fn lemma_clean_page_box(v: BitPageView)
    requires
        v.wf(),
        v.padding_clear(),
        has_ink(v),
        is_ink_extent(v, ink_extent(v)),
    ensures
        ({
            let b = ink_box(v);
            let right = b.x + b.width - 1;
            let bottom = b.y + b.height - 1;
            &&& b.width >= 1
            &&& b.height >= 1
            &&& b.x + b.width <= v.width
            &&& b.y + b.height <= v.height
            &&& forall|x: int, y: int|
                #[trigger] black(v, x, y) ==> b.x <= x <= right && b.y <= y <= bottom
            &&& exists|y: int| #[trigger] black(v, b.x as int, y)
            &&& exists|y: int| #[trigger] black(v, right, y)
            &&& exists|x: int| #[trigger] black(v, x, b.y as int)
            &&& exists|x: int| #[trigger] black(v, x, bottom)
        }),
{
    let e = ink_extent(v);
    assert forall|x: int, y: int| ink(v, x, y) implies x < v.width by {
        if x >= v.width {
            assert(!v.pixel(x, y));
        }
    }
    let y0 = choose|y: int| ink(v, e.0, y);
    let (x2, y2) = choose|x: int, y: int| ink(v, x, y) && clip_x(v, x) == e.2;
    let x1 = choose|x: int| ink(v, x, e.1);
    let x3 = choose|x: int| ink(v, x, e.3);
    assert(0 <= e.0 <= e.2 < v.width);
    assert(0 <= e.1 <= e.3 < v.height);
    assert(v.width <= u32::MAX) by {
        assert(v.stride == (v.width + 7) / 8);
    }
    let b = ink_box(v);
    assert(b.x == e.0);
    assert(b.width == e.2 - e.0 + 1);
    assert(b.y == e.1);
    assert(b.height == e.3 - e.1 + 1);
    assert(black(v, b.x as int, y0));
    assert(black(v, b.x + b.width - 1, y2));
    assert(black(v, x1, b.y as int));
    assert(black(v, x3, b.y + b.height - 1));
    assert forall|x: int, y: int| #[trigger] black(v, x, y) implies b.x <= x <= b.x + b.width - 1
        && b.y <= y <= b.y + b.height - 1 by {
        assert(ink(v, x, y));
    }
}

/// Wrapping `right + 1 - left` in 64 bits and truncating to `u32` gives the
/// truncated mathematical difference.
proof fn lemma_wrapping_width(right: u64, left: u64, w: u64)
    requires
        right < 0x1_0000_0000_0000,
        left < 0x1_0000_0000_0000,
        w == if right + 1 - left < 0 {
            (right + 1 - left + 0x1_0000_0000_0000_0000) as u64
        } else {
            (right + 1 - left) as u64
        },
    ensures
        w as u32 == (right + 1 - left) as u32,
{
    assert(w as u32 == (right + 1 - left) as u32) by (bit_vector)
        requires
            right < 0x1_0000_0000_0000,
            left < 0x1_0000_0000_0000,
            w == if right + 1 - left < 0 {
                (right + 1 - left + 0x1_0000_0000_0000_0000) as u64
            } else {
                (right + 1 - left) as u64
            },
    ;
}

/// Scan row `y`: the least and greatest positions of its set bits, or
/// `None` when the row holds none.
fn scan_row(bytes: &[u8], stride: usize, y: usize, Ghost(v): Ghost<BitPageView>) -> (r: Option<(usize, usize)>)
    requires
        v.wf(),
        bytes@ == v.bytes,
        stride == v.stride,
        y < v.height,
    ensures
        r is None ==> forall|x: int| !#[trigger] ink(v, x, y as int),
        r matches Some((f, l)) ==> {
            &&& ink(v, f as int, y as int)
            &&& ink(v, l as int, y as int)
            &&& forall|x: int| #[trigger] ink(v, x, y as int) ==> f <= x <= l
            &&& l < stride * 8
        },
{
    let n = bytes.len();
    proof {
        lemma_row_in_bounds(y as int, stride as int, v.height as int);
    }
    let off = y * stride;
    let mut i: usize = 0;
    while i < stride && bytes[off + i] == 0
        invariant
            bytes@ == v.bytes,
            v.wf(),
            stride == v.stride,
            off == y * stride,
            off + stride <= n,
            n == bytes@.len(),
            i <= stride,
            forall|k: int| 0 <= k < i ==> #[trigger] v.bytes[y * v.stride + k] == 0,
        decreases stride - i,
    {
        i = i + 1;
    }
    if i == stride {
        proof {
            lemma_row_empty(v, y as int);
        }
        return None;
    }
    let fb = bytes[off + i];
    let lz = fb.leading_zeros() as usize;
    proof {
        lemma_row_first(v, y as int, i as int);
        axiom_u8_leading_zeros(fb);
    }
    let first_x = i * 8 + lz;
    let mut j: usize = stride - 1;
    while j > i && bytes[off + j] == 0
        invariant
            bytes@ == v.bytes,
            v.wf(),
            stride == v.stride,
            off == y * stride,
            off + stride <= n,
            n == bytes@.len(),
            i <= j < stride,
            bytes@[off + i] != 0,
            forall|k: int| j < k < stride ==> #[trigger] v.bytes[y * v.stride + k] == 0,
        decreases j,
    {
        j = j - 1;
    }
    let lb = bytes[off + j];
    let tz = lb.trailing_zeros() as usize;
    proof {
        lemma_row_last(v, y as int, j as int);
        axiom_u8_trailing_zeros(lb);
    }
    let last_bit = j * 8 + 7 - tz;
    Some((first_x, last_bit))
}

/// Tightest axis-aligned box enclosing every set bit, or `None` if there
/// are none.
fn ink_bounding_box(page: &BitPage) -> (r: Option<BoundingBox>)
    requires
        page.wf(),
    ensures
        r is None <==> !has_ink(page@),
        has_ink(page@) ==> is_ink_extent(page@, ink_extent(page@)),
        r matches Some(b) ==> b == ink_box(page@),
{
    let ghost v = page@;
    let stride = page.stride();
    let width = page.width() as usize;
    let height = page.height() as usize;
    if stride == 0 || width == 0 || height == 0 {
        proof {
            if has_ink(v) {
                let (x, y) = choose|x: int, y: int| ink(v, x, y);
                assert(v.stride * 8 > 0);
            }
        }
        return None;
    }
    let bytes = page.bytes();
    let mut found = false;
    let mut min_x: usize = 0;
    let mut min_y: usize = 0;
    let mut max_x: usize = 0;
    let mut max_y: usize = 0;
    let ghost mut wy0: int = 0;
    let ghost mut wx1: int = 0;
    let ghost mut wx2: int = 0;
    let ghost mut wy2: int = 0;
    let ghost mut wx3: int = 0;
    let mut y: usize = 0;
    while y < height
        invariant
            v == page@,
            v.wf(),
            bytes@ == v.bytes,
            stride == v.stride,
            width == v.width,
            height == v.height,
            0 < width,
            y <= height,
            !found ==> forall|x: int, yy: int| yy < y ==> !#[trigger] ink(v, x, yy),
            found ==> {
                &&& wy0 < y && ink(v, min_x as int, wy0)
                &&& ink(v, wx1, min_y as int)
                &&& wy2 < y && ink(v, wx2, wy2) && clip_x(v, wx2) == max_x
                &&& ink(v, wx3, max_y as int)
                &&& max_y < y
                &&& min_y <= max_y
                &&& forall|x: int, yy: int|
                    yy < y && #[trigger] ink(v, x, yy) ==> {
                        &&& min_x <= x
                        &&& min_y <= yy <= max_y
                        &&& clip_x(v, x) <= max_x
                    }
                &&& max_x < width
            },
        decreases height - y,
    {
        let row = scan_row(bytes, stride, y, Ghost(v));
        match row {
            None => {},
            Some((first_x, last_bit)) => {
                let mut last_x = last_bit;
                if last_x >= width {
                    last_x = width - 1;
                }
                proof {
                    assert forall|x: int| #[trigger] ink(v, x, y as int) implies clip_x(v, x) <= last_x by {}
                }
                if !found {
                    found = true;
                    min_x = first_x;
                    min_y = y;
                    max_x = last_x;
                    max_y = y;
                    proof {
                        wy0 = y as int;
                        wx1 = first_x as int;
                        wx2 = last_bit as int;
                        wy2 = y as int;
                        wx3 = first_x as int;
                    }
                } else {
                    if first_x < min_x {
                        min_x = first_x;
                        proof {
                            wy0 = y as int;
                        }
                    }
                    if last_x > max_x {
                        max_x = last_x;
                        proof {
                            wx2 = last_bit as int;
                            wy2 = y as int;
                        }
                    }
                    max_y = y;
                    proof {
                        wx3 = first_x as int;
                    }
                }
            },
        }
        y = y + 1;
    }
    if !found {
        proof {
            if has_ink(v) {
                let (x, yy) = choose|x: int, yy: int| ink(v, x, yy);
                assert(!ink(v, x, yy));
            }
        }
        return None;
    }
    let ghost e = (min_x as int, min_y as int, max_x as int, max_y as int);
    proof {
        assert forall|x: int, yy: int| #[trigger] ink(v, x, yy) implies {
            &&& min_x <= x
            &&& min_y <= yy <= max_y
            &&& clip_x(v, x) <= max_x
        } by {
            assert(yy < y);
        }
        assert(ink(v, e.0, wy0));
        assert(ink(v, wx1, e.1));
        assert(ink(v, wx2, wy2) && clip_x(v, wx2) == e.2);
        assert(ink(v, wx3, e.3));
        assert(is_ink_extent(v, e));
        lemma_extent_unique(v, e, ink_extent(v));
    }
    let w = ((max_x as u64) + 1).wrapping_sub(min_x as u64);
    proof {
        assert(min_x <= wx2 < v.stride * 8);
        lemma_wrapping_width(max_x as u64, min_x as u64, w);
    }
    Some(
        BoundingBox {
            x: min_x as u32,
            y: min_y as u32,
            width: w as u32,
            height: (max_y - min_y + 1) as u32,
        },
    )
}

} // verus!
