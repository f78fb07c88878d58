//! Render an [`AlignmentPlan`] onto the paper-size canvas.
//!
//! - **Translate / Passthrough** end in [`blit_lossless_bits`], a per-row
//!   byte copy of the source bit buffer into the canvas. The horizontal
//!   offset is a multiple of 8, so the result is bit-exact.
//! - **Affine** cannot be done losslessly in 1-bit: the page is lifted to
//!   grayscale, warped with nearest-neighbour sampling, re-binarised, and
//!   packed back into the canvas. This is the only site that touches
//!   grayscale.

use std::path::PathBuf;

use vstd::prelude::*;
use vstd::arithmetic::div_mod::{lemma_fundamental_div_mod, lemma_fundamental_div_mod_converse};

use crate::bitplane::{bit_at, lemma_row_in_bounds, pack_row, packs_black, row_packed, stride_for, unpack_table, BitPage, BitPageView};
use crate::foreign::warp_nearest_white;
use crate::page::{AlignmentKind, AlignmentPlan, AnalyzedPage, RawPage, RawPageView, RegisteredPage};
use crate::paper::TargetCanvas;
use crate::plan::div_toward_zero;

verus! {

/// Gray values below this are black after re-binarisation.
pub const BLACK_THRESHOLD: u8 = 128;

/// `i == r * d + c` with `0 <= c < d` splits into quotient and remainder.
proof fn lemma_split_index(i: int, r: int, c: int, d: int)
    requires
        0 < d,
        0 <= c < d,
        i == r * d + c,
    ensures
        i / d == r,
        i % d == c,
{
    lemma_fundamental_div_mod_converse(i, d, r, c);
}

/// Unpack a page into grayscale: `0` for black, `255` for white, one byte
/// per pixel, row-major.
pub fn bit_unpack_to_grayscale(bp: &BitPage) -> (r: Vec<u8>)
    requires
        bp.wf(),
        bp@.width * bp@.height <= u32::MAX,
    ensures
        r@ == bp@.gray(),
{
    let ghost v = bp@;
    let width = bp.width();
    let height = bp.height();
    let stride = bp.stride();
    let bytes = bp.bytes();
    let n = bytes.len();
    let w = width as usize;
    let total = (width * height) as usize;
    let mut out: Vec<u8> = vec![255_u8; total];
    let table = unpack_table();
    let full_bytes_per_row = w / 8;
    let tail_bits = w - full_bytes_per_row * 8;
    let mut y: usize = 0;
    while y < height as usize
        invariant
            v == bp@,
            v.wf(),
            bytes@ == v.bytes,
            n == bytes@.len(),
            width == v.width,
            height == v.height,
            stride == v.stride,
            w == width,
            total == width * height,
            out@.len() == total,
            full_bytes_per_row == w / 8,
            tail_bits == w - full_bytes_per_row * 8,
            table@.len() == 256,
            forall|b: int, k: int|
                0 <= b < 256 && 0 <= k < 8 ==> #[trigger] table@[b][k] == if bit_at(b as u8, k) {
                    0u8
                } else {
                    255u8
                },
            y <= height,
            forall|yy: int, x: int|
                0 <= yy < y && 0 <= x < w ==> #[trigger] out@[yy * w + x] == if v.pixel(x, yy) {
                    0u8
                } else {
                    255u8
                },
        decreases height - y,
    {
        proof {
            lemma_row_in_bounds(y as int, stride as int, height as int);
            lemma_row_in_bounds(y as int, w as int, height as int);
        }
        let row_off = y * stride;
        let out_off = y * w;
        let mut k: usize = 0;
        while k < full_bytes_per_row
            invariant
                v.wf(),
                bytes@ == v.bytes,
                n == bytes@.len(),
                stride == v.stride,
                w == v.width,
                row_off == y * stride,
                row_off + stride <= n,
                out_off == y * w,
                out_off + w <= total,
                out@.len() == total,
                full_bytes_per_row == w / 8,
                y < v.height,
                table@.len() == 256,
                forall|b: int, kk: int|
                    0 <= b < 256 && 0 <= kk < 8 ==> #[trigger] table@[b][kk] == if bit_at(b as u8, kk) {
                        0u8
                    } else {
                        255u8
                    },
                k <= full_bytes_per_row,
                forall|yy: int, x: int|
                    0 <= yy < y && 0 <= x < w ==> #[trigger] out@[yy * w + x] == if v.pixel(x, yy) {
                        0u8
                    } else {
                        255u8
                    },
                forall|x: int|
                    0 <= x < 8 * k ==> #[trigger] out@[out_off + x] == if v.pixel(x, y as int) {
                        0u8
                    } else {
                        255u8
                    },
            decreases full_bytes_per_row - k,
        {
            let sb = bytes[row_off + k];
            let entry = table[sb as usize];
            let mut b: usize = 0;
            while b < 8
                invariant
                    v.wf(),
                    bytes@ == v.bytes,
                    stride == v.stride,
                    w == v.width,
                    row_off == y * stride,
                    out_off == y * w,
                    out_off + w <= total,
                    out@.len() == total,
                    k < full_bytes_per_row,
                    full_bytes_per_row == w / 8,
                    sb == v.bytes[row_off + k],
                    forall|kk: int| 0 <= kk < 8 ==> #[trigger] entry[kk] == if bit_at(sb, kk) {
                        0u8
                    } else {
                        255u8
                    },
                    b <= 8,
                    forall|yy: int, x: int|
                        0 <= yy < y && 0 <= x < w ==> #[trigger] out@[yy * w + x] == if v.pixel(x, yy) {
                            0u8
                        } else {
                            255u8
                        },
                    forall|x: int|
                        0 <= x < 8 * k + b ==> #[trigger] out@[out_off + x] == if v.pixel(x, y as int) {
                            0u8
                        } else {
                            255u8
                        },
                decreases 8 - b,
            {
                proof {
                    lemma_split_index(8 * k + b, k as int, b as int, 8);
                    assert(v.byte_index(8 * k + b, y as int) == row_off + k);
                }
                out.set(out_off + 8 * k + b, entry[b]);
                proof {
                    assert forall|yy: int, x: int|
                        0 <= yy < y && 0 <= x < w implies #[trigger] out@[yy * w + x] == if v.pixel(x, yy) {
                            0u8
                        } else {
                            255u8
                        } by {
                        lemma_row_in_bounds(yy, w as int, y as int);
                    }
                }
                b = b + 1;
            }
            k = k + 1;
        }
        if tail_bits > 0 {
            let sb = bytes[row_off + full_bytes_per_row];
            let entry = table[sb as usize];
            let mut b: usize = 0;
            while b < tail_bits
                invariant
                    v.wf(),
                    bytes@ == v.bytes,
                    stride == v.stride,
                    w == v.width,
                    row_off == y * stride,
                    out_off == y * w,
                    out_off + w <= total,
                    out@.len() == total,
                    full_bytes_per_row == w / 8,
                    tail_bits == w - full_bytes_per_row * 8,
                    0 < tail_bits < 8,
                    full_bytes_per_row < stride,
                    sb == v.bytes[row_off + full_bytes_per_row],
                    forall|kk: int| 0 <= kk < 8 ==> #[trigger] entry[kk] == if bit_at(sb, kk) {
                        0u8
                    } else {
                        255u8
                    },
                    b <= tail_bits,
                    forall|yy: int, x: int|
                        0 <= yy < y && 0 <= x < w ==> #[trigger] out@[yy * w + x] == if v.pixel(x, yy) {
                            0u8
                        } else {
                            255u8
                        },
                    forall|x: int|
                        0 <= x < 8 * full_bytes_per_row + b ==> #[trigger] out@[out_off + x] == if v.pixel(
                            x,
                            y as int,
                        ) {
                            0u8
                        } else {
                            255u8
                        },
                decreases tail_bits - b,
            {
                proof {
                    lemma_split_index(8 * full_bytes_per_row + b, full_bytes_per_row as int, b as int, 8);
                }
                out.set(out_off + 8 * full_bytes_per_row + b, entry[b]);
                proof {
                    assert forall|yy: int, x: int|
                        0 <= yy < y && 0 <= x < w implies #[trigger] out@[yy * w + x] == if v.pixel(x, yy) {
                            0u8
                        } else {
                            255u8
                        } by {
                        lemma_row_in_bounds(yy, w as int, y as int);
                    }
                }
                b = b + 1;
            }
        }
        proof {
            assert forall|yy: int, x: int|
                0 <= yy < y + 1 && 0 <= x < w implies #[trigger] out@[yy * w + x] == if v.pixel(x, yy) {
                    0u8
                } else {
                    255u8
                } by {
                if yy == y {
                    assert(out@[out_off + x] == out@[yy * w + x]);
                }
            }
        }
        y = y + 1;
    }
    proof {
        assert forall|i: int| 0 <= i < total implies #[trigger] out@[i] == v.gray()[i] by {
            assert(w > 0) by (nonlinear_arith)
                requires
                    0 <= i < w * height,
            ;
            let yy = i / (w as int);
            let x = i % (w as int);
            lemma_fundamental_div_mod(i, w as int);
            assert(i == yy * w + x) by (nonlinear_arith)
                requires
                    i == w * yy + x,
            ;
            assert(0 <= yy < height) by (nonlinear_arith)
                requires
                    i == yy * w + x,
                    0 <= x < w,
                    0 <= i < w * height,
            ;
        }
        assert(out@ =~= v.gray());
    }
    out
}

/// Re-binarise a grayscale buffer: values below [`BLACK_THRESHOLD`] become
/// `0`, the others `255`.
fn rebinarise_in_place(img: &mut Vec<u8>)
    ensures
        final(img)@.len() == old(img)@.len(),
        forall|i: int|
            0 <= i < old(img)@.len() ==> #[trigger] final(img)@[i] == if old(img)@[i] < BLACK_THRESHOLD {
                0u8
            } else {
                255u8
            },
{
    let n = img.len();
    let mut i: usize = 0;
    while i < n
        invariant
            n == img@.len(),
            n == old(img)@.len(),
            i <= n,
            forall|j: int|
                0 <= j < i ==> #[trigger] img@[j] == if old(img)@[j] < BLACK_THRESHOLD {
                    0u8
                } else {
                    255u8
                },
            forall|j: int| i <= j < n ==> #[trigger] img@[j] == old(img)@[j],
        decreases n - i,
    {
        let px = img[i];
        img.set(
            i,
            if px < BLACK_THRESHOLD {
                0
            } else {
                255
            },
        );
        i = i + 1;
    }
}

/// Row `y` of a row-major grayscale buffer `width` pixels wide.
pub open spec fn gray_row(gray: Seq<u8>, width: int, y: int) -> Seq<u8> {
    gray.subrange(y * width, y * width + width)
}

/// Pack a grayscale buffer of the page's size into the page, row by row.
pub(crate) fn pack_into_bitpage(gray: &[u8], dest: &mut BitPage)
    requires
        old(dest).wf(),
        gray@.len() == old(dest)@.width * old(dest)@.height,
    ensures
        final(dest).wf(),
        final(dest)@.width == old(dest)@.width,
        final(dest)@.height == old(dest)@.height,
        forall|y: int|
            0 <= y < old(dest)@.height ==> row_packed(
                #[trigger] gray_row(gray@, old(dest)@.width as int, y),
                final(dest)@.bytes.subrange(y * old(dest)@.stride, y * old(dest)@.stride + old(dest)@.stride),
                old(dest)@.width as int,
            ),
        final(dest)@.padding_clear(),
        forall|x: int, y: int|
            0 <= y < old(dest)@.height && 0 <= x < old(dest)@.width ==> #[trigger] final(dest)@.pixel(x, y)
                == packs_black(gray_row(gray@, old(dest)@.width as int, y), x, old(dest)@.width as int),
{
    let ghost d0 = dest@;
    let width = dest.width() as usize;
    let height = dest.height();
    let stride = dest.stride();
    let n = gray.len();
    let mut y: u32 = 0;
    while y < height
        invariant
            dest.wf(),
            dest@.width == d0.width,
            dest@.height == d0.height,
            dest@.stride == d0.stride,
            d0.wf(),
            width == d0.width,
            height == d0.height,
            stride == d0.stride,
            n == gray@.len(),
            n == width * height,
            y <= height,
            forall|yy: int|
                0 <= yy < y ==> row_packed(
                    #[trigger] gray_row(gray@, width as int, yy),
                    dest@.bytes.subrange(yy * stride, yy * stride + stride),
                    width as int,
                ),
        decreases height - y,
    {
        proof {
            lemma_row_in_bounds(y as int, width as int, height as int);
            lemma_row_in_bounds(y as int, stride as int, height as int);
        }
        let off = y as usize * width;
        let src_row = &gray[off..off + width];
        let ghost before = dest@.bytes;
        let dest_row = dest.row_mut(y);
        pack_row(src_row, dest_row, width);
        proof {
            let after = dest@.bytes;
            assert forall|i: int| 0 <= i < y * stride implies after[i] == before[i] by {}
            assert forall|yy: int|
                0 <= yy < y + 1 implies row_packed(
                    #[trigger] gray_row(gray@, width as int, yy),
                    dest@.bytes.subrange(yy * stride, yy * stride + stride),
                    width as int,
                ) by {
                lemma_row_in_bounds(yy, stride as int, height as int);
                if yy < y {
                    lemma_row_in_bounds(yy, stride as int, y as int);
                    assert(after.subrange(yy * stride, yy * stride + stride) =~= before.subrange(
                        yy * stride,
                        yy * stride + stride,
                    ));
                } else {
                    assert(after.subrange(yy * stride, yy * stride + stride) =~= dest_row@);
                    assert(src_row@ =~= gray_row(gray@, width as int, yy));
                }
            }
        }
        y = y + 1;
    }
    proof {
        let dv = dest@;
        let w = width as int;
        assert forall|x: int, y: int| 0 <= y < dv.height && 0 <= x < dv.stride * 8 implies
            #[trigger] dv.pixel(x, y) == (x < w && packs_black(gray_row(gray@, w, y), x, w)) by {
            let j = x / 8;
            let k = x % 8;
            lemma_split_index(x, j, k, 8);
            assert(row_packed(gray_row(gray@, w, y), dv.bytes.subrange(y * dv.stride, y * dv.stride + dv.stride), w));
            lemma_row_in_bounds(y, dv.stride as int, dv.height as int);
            assert(dv.bytes.subrange(y * dv.stride, y * dv.stride + dv.stride)[j] == dv.bytes[y * dv.stride + j]);
        }
    }
}

/// `x` rounded toward negative infinity to a multiple of 8.
pub open spec fn floor8(x: int) -> int {
    (x / 8) * 8
}

/// `x` rounded toward zero to a multiple of 8.
pub open spec fn trunc8(x: int) -> int {
    if x >= 0 {
        (x / 8) * 8
    } else {
        -(((-x) / 8) * 8)
    }
}

/// The rows and columns a byte-aligned blit copies.
pub struct BlitGeometry {
    /// Horizontal offset, a multiple of 8.
    pub dxa: int,
    /// Vertical offset.
    pub dy: int,
    /// First source row copied.
    pub sy0: int,
    /// One past the last source row copied.
    pub sy1: int,
    /// First source pixel column copied (a multiple of 8).
    pub sx0: int,
    /// One past the last source pixel column copied (a multiple of 8).
    pub sx1: int,
}

/// The geometry of copying a `sw x sh` page into a `dw x dh` page shifted
/// by `(dx, dy)`: `dx` is rounded down to a multiple of 8, rows and columns
/// that would land off the destination are dropped, and the copied columns
/// end on a byte boundary.
pub open spec fn blit_geometry(sw: int, sh: int, dw: int, dh: int, dx: int, dy: int) -> BlitGeometry {
    let dxa = floor8(dx);
    BlitGeometry {
        dxa,
        dy,
        sy0: if -dy > 0 { -dy } else { 0 },
        sy1: if dh - dy < sh { dh - dy } else { sh },
        sx0: if -dxa > 0 { -dxa } else { 0 },
        sx1: trunc8(if dw - dxa < sw { dw - dxa } else { sw }),
    }
}

impl BlitGeometry {
    /// Something is copied.
    pub open spec fn active(self) -> bool {
        self.sy0 < self.sy1 && self.sx0 < self.sx1
    }

    /// Bytes copied per row.
    pub open spec fn span(self) -> int {
        (self.sx1 - self.sx0) / 8
    }

    /// First source byte of a row copied.
    pub open spec fn src_byte0(self) -> int {
        self.sx0 / 8
    }

    /// First destination byte of a row written.
    pub open spec fn dest_byte0(self) -> int {
        (self.sx0 + self.dxa) / 8
    }

    /// Destination byte `c` of row `r` receives a source byte.
    pub open spec fn covers(self, r: int, c: int) -> bool {
        &&& self.active()
        &&& self.sy0 <= r - self.dy < self.sy1
        &&& 0 <= c - self.dest_byte0() < self.span()
    }
}

/// The destination bytes once the source rows before `rows_done`, and the
/// first `cols_done` bytes of row `rows_done`, have been copied.
pub open spec fn blit_bytes(
    s: BitPageView,
    d: BitPageView,
    g: BlitGeometry,
    rows_done: int,
    cols_done: int,
) -> Seq<u8> {
    Seq::new(
        d.bytes.len(),
        |i: int|
            {
                let r = i / (d.stride as int);
                let c = i % (d.stride as int);
                let sy = r - g.dy;
                let k = c - g.dest_byte0();
                if g.covers(r, c) && (sy < rows_done || (sy == rows_done && k < cols_done)) {
                    s.bytes[sy * s.stride + g.src_byte0() + k]
                } else {
                    d.bytes[i]
                }
            },
    )
}

/// The destination bytes after copying `s` into `d` shifted by `(dx, dy)`:
/// destination byte `c` of row `r` holds source byte
/// `c - dest_byte0 + src_byte0` of row `r - dy` where the geometry covers
/// it, and is unchanged elsewhere.
pub open spec fn blit_result(s: BitPageView, d: BitPageView, dx: int, dy: int) -> Seq<u8> {
    let g = blit_geometry(
        s.width as int,
        s.height as int,
        d.width as int,
        d.height as int,
        dx,
        dy,
    );
    blit_bytes(s, d, g, g.sy1, 0)
}

/// A byte-aligned blit moves pixels bit-exactly: a destination pixel
/// inside the copied window shows the source pixel `(dxa, dy)` back
/// (`dxa` being `dx` rounded down to a multiple of 8), and every other
/// destination pixel keeps its value.
pub proof fn lemma_blit_moves_pixels(s: BitPageView, d: BitPageView, dx: int, dy: int, x: int, y: int)
    requires
        s.wf(),
        d.wf(),
        0 <= y < d.height,
        0 <= x < d.stride * 8,
    ensures
        ({
            let g = blit_geometry(s.width as int, s.height as int, d.width as int, d.height as int, dx, dy);
            let out = BitPageView { width: d.width, height: d.height, stride: d.stride, bytes: blit_result(s, d, dx, dy) };
            if g.active() && g.sy0 <= y - dy < g.sy1 && g.sx0 <= x - g.dxa < g.sx1 {
                out.pixel(x, y) == s.pixel(x - g.dxa, y - dy)
            } else {
                out.pixel(x, y) == d.pixel(x, y)
            }
        }),
{
    let g = blit_geometry(s.width as int, s.height as int, d.width as int, d.height as int, dx, dy);
    let q = x / 8;
    let k = x % 8;
    lemma_split_index(x, q, k, 8);
    lemma_row_in_bounds(y, d.stride as int, d.height as int);
    let i = y * d.stride + q;
    lemma_split_index(i, y, q, d.stride as int);
    let m = dx / 8;
    assert(g.dxa == 8 * m);
    let a = x - g.dxa;
    lemma_split_index(a, q - m, k, 8);
    if g.active() {
        let z = g.sx0 / 8;
        assert(g.sx0 == 8 * z);
        lemma_split_index(g.sx0 + g.dxa, z + m, 0, 8);
        let e = g.sx1 / 8;
        assert(g.sx1 == 8 * e);
        lemma_split_index(g.sx1 - g.sx0, e - z, 0, 8);
        assert(g.covers(y, q) == (g.sy0 <= y - dy < g.sy1 && g.sx0 <= a < g.sx1));
        if g.covers(y, q) {
            assert(g.src_byte0() + q - g.dest_byte0() == q - m);
        }
    }
}

/// The page `d` becomes when `s` is blitted into it shifted by `(dx, dy)`.
pub open spec fn blitted(s: BitPageView, d: BitPageView, dx: int, dy: int) -> BitPageView {
    BitPageView { width: d.width, height: d.height, stride: d.stride, bytes: blit_result(s, d, dx, dy) }
}

/// A blit keeps the destination's padding clear: only bytes lying inside
/// the destination's width receive source bits, so every padding bit of the
/// result is the destination's own.
pub proof fn lemma_blit_keeps_padding_clear(s: BitPageView, d: BitPageView, dx: int, dy: int)
    requires
        s.wf(),
        d.wf(),
        d.padding_clear(),
    ensures
        blitted(s, d, dx, dy).padding_clear(),
{
    let out = blitted(s, d, dx, dy);
    let g = blit_geometry(s.width as int, s.height as int, d.width as int, d.height as int, dx, dy);
    assert forall|x: int, y: int| 0 <= y < out.height && out.width <= x < out.stride * 8 implies !(
    #[trigger] out.pixel(x, y)) by {
        lemma_blit_moves_pixels(s, d, dx, dy, x, y);
        if g.active() && g.sy0 <= y - dy < g.sy1 && g.sx0 <= x - g.dxa < g.sx1 {
            let m = if d.width - g.dxa < s.width {
                d.width - g.dxa
            } else {
                s.width as int
            };
            assert(m > 0);
            assert(g.sx1 <= m);
            assert(false);
        }
    }
}

/// A column `x >= 0` lies before the last whole byte boundary at or below
/// `m` exactly when the byte holding it ends by `m`.
proof fn lemma_inside_whole_bytes(x: int, m: int)
    requires
        x >= 0,
    ensures
        (x < trunc8(m)) <==> (x - x % 8 + 8 <= m),
{
    lemma_fundamental_div_mod(x, 8);
    if m >= 0 {
        lemma_fundamental_div_mod(m, 8);
        let q = x / 8;
        let n = m / 8;
        assert(x < n * 8 <==> q + 1 <= n) by (nonlinear_arith)
            requires
                x == 8 * q + x % 8,
                0 <= x % 8 < 8,
        ;
        assert(q * 8 + 8 <= m <==> q + 1 <= n) by (nonlinear_arith)
            requires
                m == 8 * n + m % 8,
                0 <= m % 8 < 8,
        ;
    }
}

/// A blit onto a white page moves pixels by whole bytes: with `bytes` the
/// result of blitting `s` shifted by `(dx, dy)` onto a white page the size
/// of `dest`, destination pixel `(cx, cy)` shows source pixel
/// `(cx - a, cy - dy)`, `a` being `dx` rounded down to a multiple of 8. It
/// is black exactly when that pixel is on the source, in a byte the copy
/// takes whole (the byte ends inside both the source and the destination
/// width), and black; every other destination pixel is white.
pub proof fn lemma_blit_onto_white(s: BitPageView, dest: BitPageView, dx: int, dy: int, bytes: Seq<u8>)
    requires
        s.wf(),
        dest.wf(),
        bytes == blit_result(s, blank_like(dest), dx, dy),
    ensures
        forall|cx: int, cy: int|
            0 <= cx < dest.width && 0 <= cy < dest.height ==> #[trigger] bit_at(
                bytes[cy * dest.stride + cx / 8],
                cx % 8,
            ) == ({
                let x = cx - (dx / 8) * 8;
                let y = cy - dy;
                &&& 0 <= y < s.height
                &&& 0 <= x
                &&& x - x % 8 + 8 <= s.width
                &&& cx - cx % 8 + 8 <= dest.width
                &&& s.pixel(x, y)
            }),
{
    let d = blank_like(dest);
    let sw = s.width as int;
    let sh = s.height as int;
    let a = (dx / 8) * 8;
    assert(floor8(dx) == a);
    let out = blitted(s, d, dx, dy);
    let g = blit_geometry(sw, sh, d.width as int, d.height as int, dx, dy);
    assert forall|cx: int, cy: int| 0 <= cx < dest.width && 0 <= cy < dest.height implies #[trigger] bit_at(
        bytes[cy * dest.stride + cx / 8],
        cx % 8,
    ) == ({
                let x = cx - a;
                let y = cy - dy;
                &&& 0 <= y < s.height
                &&& 0 <= x
                &&& x - x % 8 + 8 <= s.width
                &&& cx - cx % 8 + 8 <= dest.width
                &&& s.pixel(x, y)
            }) by {
        let x = cx - a;
        let y = cy - dy;
        lemma_blit_moves_pixels(s, d, dx, dy, cx, cy);
        assert(out.pixel(cx, cy) == bit_at(bytes[cy * dest.stride + cx / 8], cx % 8));
        let k = (7 - cx % 8) as u8;
        assert((0u8 >> k) & 1u8 == 0u8) by (bit_vector);
        lemma_row_in_bounds(cy, dest.stride as int, dest.height as int);
        assert(!d.pixel(cx, cy));
        let m = if d.width - a < sw { d.width - a } else { sw };
        assert(g.sx1 == trunc8(m));
        if 0 <= x {
            lemma_inside_whole_bytes(x, m);
            lemma_fundamental_div_mod(x, 8);
            lemma_fundamental_div_mod(cx, 8);
            let q = dx / 8;
            assert(a == 8 * q);
            lemma_fundamental_div_mod_converse(cx, 8, x / 8 + q, x % 8);
            assert(cx - cx % 8 == x - x % 8 + a);
        }
    }
}

/// Where a passthrough render puts the page. With `bytes` the render of the
/// page onto a white destination the size of `dest`, canvas pixel
/// `(cx, cy)` shows source pixel `(cx - dx, cy - dy)`, where `dy` is half
/// the height left over on the canvas and `dx` half the width left over,
/// rounded down to a multiple of 8 (halves rounded toward zero, negative
/// when the page is larger than the canvas); it is black exactly when that
/// source pixel is on the page, in a byte of the page that the byte copy
/// takes whole (its byte ends inside both the page and the destination
/// width), and black. Every other canvas pixel is white.
pub proof fn lemma_passthrough_placement(raw: RawPage, dest: BitPageView, canvas: TargetCanvas, bytes: Seq<u8>)
    requires
        raw@.bits.wf(),
        dest.wf(),
        lossless_render(AlignmentPlan::Passthrough { raw }, canvas, blank_like(dest)) == Some(bytes),
    ensures
        forall|cx: int, cy: int|
            0 <= cx < dest.width && 0 <= cy < dest.height ==> #[trigger] bit_at(
                bytes[cy * dest.stride + cx / 8],
                cx % 8,
            ) == ({
                let sw = raw@.bits.width as int;
                let sh = raw@.bits.height as int;
                let hx = canvas.width - sw;
                let dx = ((if hx >= 0 {
                    hx / 2
                } else {
                    -((-hx) / 2)
                }) / 8) * 8;
                let hy = canvas.height - sh;
                let dy = if hy >= 0 {
                    hy / 2
                } else {
                    -((-hy) / 2)
                };
                let x = cx - dx;
                let y = cy - dy;
                &&& 0 <= y < sh
                &&& 0 <= x
                &&& x - x % 8 + 8 <= sw
                &&& cx - cx % 8 + 8 <= dest.width
                &&& raw@.bits.pixel(x, y)
            }),
{
    let s = raw@.bits;
    let sw = s.width as int;
    let sh = s.height as int;
    let hx = canvas.width - sw;
    let hxt = if hx >= 0 { hx / 2 } else { -((-hx) / 2) };
    let dx = (hxt / 8) * 8;
    let (pdx, pdy) = passthrough_offset(canvas, sw, sh);
    assert(hxt == div_toward_zero(canvas.width - sw, 2));
    assert(-0x8000_0000 <= dx <= 0x7fff_ffff);
    assert(pdx as int == dx);
    assert((pdx as int / 8) * 8 == dx);
    lemma_blit_onto_white(s, dest, pdx as int, pdy as int, bytes);
}

/// Where a translated page lands. With `bytes` the render of an aligned
/// page translated by `(dx, dy)` onto a white destination the size of
/// `dest`, canvas pixel `(cx, cy)` shows source pixel `(cx - a, cy - dy)`,
/// `a` being `dx` rounded down to a multiple of 8; it is black exactly when
/// that source pixel is on the page, in a byte the copy takes whole, and
/// black. Every other canvas pixel is white.
pub proof fn lemma_translate_placement(
    analyzed: AnalyzedPage,
    dx: i32,
    dy: i32,
    dest: BitPageView,
    canvas: TargetCanvas,
    bytes: Seq<u8>,
)
    requires
        analyzed@.raw.bits.wf(),
        dest.wf(),
        lossless_render(
            AlignmentPlan::Aligned { analyzed, kind: AlignmentKind::Translate { dx, dy } },
            canvas,
            blank_like(dest),
        ) == Some(bytes),
    ensures
        forall|cx: int, cy: int|
            0 <= cx < dest.width && 0 <= cy < dest.height ==> #[trigger] bit_at(
                bytes[cy * dest.stride + cx / 8],
                cx % 8,
            ) == ({
                let x = cx - (dx / 8) * 8;
                let y = cy - dy;
                &&& 0 <= y < analyzed@.raw.bits.height
                &&& 0 <= x
                &&& x - x % 8 + 8 <= analyzed@.raw.bits.width
                &&& cx - cx % 8 + 8 <= dest.width
                &&& analyzed@.raw.bits.pixel(x, y)
            }),
{
    lemma_blit_onto_white(analyzed@.raw.bits, dest, dx as int, dy as int, bytes);
}

/// Round toward negative infinity to the nearest multiple of 8.
fn round_down_to_byte(x: i64) -> (r: i64)
    requires
        i64::MIN + 7 <= x,
    ensures
        r == floor8(x as int),
{
    if x >= 0 {
        (x / 8) * 8
    } else {
        ((x - 7) / 8) * 8
    }
}

/// Copy `src` into `dest` shifted by `(dx, dy)` pixels, `dx` rounded down
/// to a multiple of 8 so each row is a plain byte copy. Rows that would land
/// off the canvas are dropped, and each row copy ends on a byte boundary
/// (at most 7 source pixels lost at the right edge).
fn blit_lossless_bits(src: &BitPage, dest: &mut BitPage, dx: i32, dy: i32)
    requires
        src.wf(),
        old(dest).wf(),
    ensures
        final(dest).wf(),
        final(dest)@.width == old(dest)@.width,
        final(dest)@.height == old(dest)@.height,
        final(dest)@.bytes == blit_result(src@, old(dest)@, dx as int, dy as int),
        old(dest)@.padding_clear() ==> final(dest)@.padding_clear(),
{
    let ghost sv = src@;
    let ghost dv = dest@;
    proof {
        if dv.padding_clear() {
            lemma_blit_keeps_padding_clear(sv, dv, dx as int, dy as int);
        }
    }
    let src_w = src.width() as i64;
    let src_h = src.height() as i64;
    let dest_w = dest.width() as i64;
    let dest_h = dest.height() as i64;
    let dx_aligned = round_down_to_byte(dx as i64);
    let dy_i = dy as i64;
    let ghost g = blit_geometry(sv.width as int, sv.height as int, dv.width as int, dv.height as int, dx as int, dy as int);
    let sy0 = if -dy_i > 0 { -dy_i } else { 0 };
    let sy1 = if dest_h - dy_i < src_h { dest_h - dy_i } else { src_h };
    if sy0 >= sy1 {
        proof {
            assert(blit_result(sv, dv, dx as int, dy as int) =~= dv.bytes);
        }
        return;
    }
    let sx0 = if -dx_aligned > 0 { -dx_aligned } else { 0 };
    let sx1_pixels = if dest_w - dx_aligned < src_w { dest_w - dx_aligned } else { src_w };
    let sx1 = (sx1_pixels / 8) * 8;
    if sx0 >= sx1 {
        proof {
            assert(!g.active());
            assert(blit_result(sv, dv, dx as int, dy as int) =~= dv.bytes);
        }
        return;
    }
    let sx0_byte = (sx0 / 8) as usize;
    let span_bytes = ((sx1 - sx0) / 8) as usize;
    if span_bytes == 0 {
        proof {
            assert(blit_result(sv, dv, dx as int, dy as int) =~= dv.bytes);
        }
        return;
    }
    let dest_x_byte = ((sx0 + dx_aligned) / 8) as usize;
    proof {
        assert(g.sx1 == sx1);
        assert(g.active());
        assert(sx0_byte + span_bytes <= sv.stride);
        assert(dest_x_byte + span_bytes <= dv.stride);
    }
    let src_stride = src.stride();
    let dest_stride = dest.stride();
    let src_bytes = src.bytes();
    let src_len = src_bytes.len();
    let dest_bytes = dest.bytes_mut();
    let dest_len = dest_bytes.len();
    let mut sy = sy0;
    while sy < sy1
        invariant
            sv.wf(),
            dv.wf(),
            src_bytes@ == sv.bytes,
            src_len == sv.bytes.len(),
            dest_len == dv.bytes.len(),
            dest_bytes@.len() == dv.bytes.len(),
            src_stride == sv.stride,
            dest_stride == dv.stride,
            g.sy0 == sy0,
            g.sy1 == sy1,
            g.active(),
            g.dy == dy_i,
            g.src_byte0() == sx0_byte,
            g.dest_byte0() == dest_x_byte,
            g.span() == span_bytes,
            sx0_byte + span_bytes <= sv.stride,
            dest_x_byte + span_bytes <= dv.stride,
            0 <= sy0 <= sy <= sy1,
            sy1 <= sv.height,
            sy1 + dy_i <= dv.height,
            0 <= sy0 + dy_i,
            dest_bytes@ == blit_bytes(sv, dv, g, sy as int, 0),
        decreases sy1 - sy,
    {
        proof {
            lemma_row_in_bounds(sy as int, src_stride as int, sv.height as int);
            lemma_row_in_bounds(sy + dy_i, dest_stride as int, dv.height as int);
        }
        let src_off = sy as usize * src_stride + sx0_byte;
        let dest_off = (sy + dy_i) as usize * dest_stride + dest_x_byte;
        let mut k: usize = 0;
        while k < span_bytes
            invariant
                sv.wf(),
                dv.wf(),
                src_bytes@ == sv.bytes,
                src_len == sv.bytes.len(),
                dest_len == dv.bytes.len(),
                dest_bytes@.len() == dv.bytes.len(),
                src_stride == sv.stride,
                dest_stride == dv.stride,
                g.active(),
                g.dy == dy_i,
                g.sy0 <= sy < g.sy1,
                g.src_byte0() == sx0_byte,
                g.dest_byte0() == dest_x_byte,
                g.span() == span_bytes,
                sx0_byte + span_bytes <= sv.stride,
                dest_x_byte + span_bytes <= dv.stride,
                src_off == sy * src_stride + sx0_byte,
                dest_off == (sy + dy_i) * dest_stride + dest_x_byte,
                sy * src_stride + src_stride <= sv.bytes.len(),
                (sy + dy_i) * dest_stride + dest_stride <= dv.bytes.len(),
                0 <= sy + dy_i,
                k <= span_bytes,
                dest_bytes@ == blit_bytes(sv, dv, g, sy as int, k as int),
            decreases span_bytes - k,
        {
            let b = src_bytes[src_off + k];
            let ghost prev = dest_bytes@;
            dest_bytes[dest_off + k] = b;
            proof {
                let idx = dest_off + k;
                let next = blit_bytes(sv, dv, g, sy as int, k + 1);
                lemma_split_index(idx as int, sy + dy_i, dest_x_byte + k, dest_stride as int);
                assert forall|i: int| 0 <= i < next.len() implies #[trigger] next[i] == dest_bytes@[i] by {
                    if i != idx {
                        let r = i / (dv.stride as int);
                        let c = i % (dv.stride as int);
                        lemma_fundamental_div_mod(i, dv.stride as int);
                        if r == sy + dy_i && c - dest_x_byte == k {
                            assert(i == (sy + dy_i) * dest_stride + dest_x_byte + k) by (nonlinear_arith)
                                requires
                                    i == dv.stride * r + c,
                                    r == sy + dy_i,
                                    c == dest_x_byte + k,
                                    dest_stride == dv.stride,
                            ;
                        }
                    }
                }
                assert(next =~= dest_bytes@);
            }
            k = k + 1;
        }
        proof {
            assert(blit_bytes(sv, dv, g, sy as int, span_bytes as int) =~= blit_bytes(sv, dv, g, sy + 1, 0));
        }
        sy = sy + 1;
    }
}

/// A page of the same shape as `v`, all white.
pub open spec fn blank_like(v: BitPageView) -> BitPageView {
    BitPageView {
        width: v.width,
        height: v.height,
        stride: v.stride,
        bytes: Seq::new(v.bytes.len(), |i: int| 0u8),
    }
}

/// A white page the size of `canvas`.
pub open spec fn blank_canvas(canvas: TargetCanvas) -> BitPageView {
    BitPageView {
        width: canvas.width as nat,
        height: canvas.height as nat,
        stride: stride_for(canvas.width as nat),
        bytes: Seq::new(stride_for(canvas.width as nat) * (canvas.height as nat), |i: int| 0u8),
    }
}

/// The page has at least one black pixel.
pub open spec fn has_black(v: BitPageView) -> bool {
    exists|x: int, y: int| v.is_black(x, y)
}

/// The offset at which a passthrough page of `sw x sh` pixels is centered
/// on the canvas: half the size difference, rounded toward zero, the
/// horizontal part then rounded down to a multiple of 8.
pub open spec fn passthrough_offset(canvas: TargetCanvas, sw: int, sh: int) -> (i32, i32) {
    (
        floor8(div_toward_zero(canvas.width - sw, 2)) as i32,
        div_toward_zero(canvas.height - sh, 2) as i32,
    )
}

/// The bytes a lossless render produces on `blank`, or `None` for the
/// affine path.
pub open spec fn lossless_render(plan: AlignmentPlan, canvas: TargetCanvas, blank: BitPageView) -> Option<Seq<u8>> {
    match plan {
        AlignmentPlan::Aligned { analyzed, kind } => match kind {
            AlignmentKind::Translate { dx, dy } => Some(blit_result(analyzed@.raw.bits, blank, dx as int, dy as int)),
            AlignmentKind::Affine(_) => None,
        },
        AlignmentPlan::Passthrough { raw } => {
            let (dx, dy) = passthrough_offset(canvas, raw@.bits.width as int, raw@.bits.height as int);
            Some(blit_result(raw@.bits, blank, dx as int, dy as int))
        },
    }
}

/// The affine path can run: the destination has the canvas's size, the
/// canvas is at least one pixel wide and its gray image fits in memory, and
/// the source's pixel count fits in `u32`.
pub open spec fn affine_ready(plan: AlignmentPlan, canvas: TargetCanvas, dest: BitPageView) -> bool {
    plan matches AlignmentPlan::Aligned { kind: AlignmentKind::Affine(_), .. } ==> {
        &&& dest.width == canvas.width
        &&& dest.height == canvas.height
        &&& canvas.width > 0
        &&& canvas.width * canvas.height <= usize::MAX
        &&& plan.raw_view().bits.width * plan.raw_view().bits.height <= u32::MAX
    }
}

/// Rendering does not depend on what the destination held: the blank page
/// a render starts from is fixed by the destination's size alone, so two
/// well-formed buffers of one size get the same bytes from the same
/// byte-exact plan, and a buffer of the canvas's size gets what a fresh
/// canvas gets, which is what [`render`] returns.
pub proof fn lemma_render_ignores_prior_contents(
    plan: AlignmentPlan,
    canvas: TargetCanvas,
    a: BitPageView,
    b: BitPageView,
)
    requires
        a.wf(),
        b.wf(),
        a.width == b.width,
        a.height == b.height,
    ensures
        blank_like(a) == blank_like(b),
        lossless_render(plan, canvas, blank_like(a)) == lossless_render(plan, canvas, blank_like(b)),
        a.width == canvas.width && a.height == canvas.height ==> blank_like(a) == blank_canvas(canvas),
{
    assert(blank_like(a).bytes =~= blank_like(b).bytes);
    if a.width == canvas.width && a.height == canvas.height {
        assert(blank_like(a).bytes =~= blank_canvas(canvas).bytes);
    }
}

/// A re-usable destination canvas for [`render_into`].
pub struct CanvasBuf {
    bits: BitPage,
}

impl View for CanvasBuf {
    type V = BitPageView;

    closed spec fn view(&self) -> BitPageView {
        self.bits@
    }
}

impl CanvasBuf {
    /// Allocate a fresh, white buffer sized to `canvas`.
    pub fn new(canvas: TargetCanvas) -> (r: Self)
        requires
            stride_for(canvas.width as nat) * canvas.height <= usize::MAX,
        ensures
            r@.wf(),
            r@ == blank_canvas(canvas),
    {
        let bits = BitPage::new_white(canvas.width, canvas.height);
        proof {
            assert(bits@.bytes =~= blank_canvas(canvas).bytes);
        }
        Self { bits }
    }

    /// Reset every byte to `0` (white), ready for the next page.
    pub fn reset(&mut self)
        requires
            old(self)@.wf(),
        ensures
            final(self)@ == blank_like(old(self)@),
    {
        self.bits.reset_white();
        proof {
            assert(self.bits@.bytes =~= blank_like(old(self)@).bytes);
        }
    }

    /// Borrow the underlying bit-packed buffer.
    pub fn bits(&self) -> (r: &BitPage)
        ensures
            r@ == self@,
    {
        &self.bits
    }
}

/// Apply an [`AlignmentPlan`] to its source page and return a registered
/// page sized exactly to `canvas`.
pub fn render(plan: AlignmentPlan, canvas: TargetCanvas) -> (r: RegisteredPage)
    requires
        stride_for(canvas.width as nat) * canvas.height <= usize::MAX,
        plan.raw_view().bits.wf(),
        affine_ready(plan, canvas, blank_canvas(canvas)),
    ensures
        r@.source == plan.raw_view().source,
        r@.bits.wf(),
        r@.bits.width == canvas.width,
        r@.bits.height == canvas.height,
        match lossless_render(plan, canvas, blank_canvas(canvas)) {
            Some(bytes) => r@.bits.bytes == bytes,
            None => r@.bits.padding_clear() && (has_black(r@.bits) ==> has_black(plan.raw_view().bits)),
        },        plan matches AlignmentPlan::Aligned { analyzed, kind: AlignmentKind::Translate { dx, dy } } ==> forall|
            cx: int,
            cy: int,
        |
            0 <= cx < canvas.width && 0 <= cy < canvas.height ==> #[trigger] r@.bits.pixel(cx, cy) == ({
                let x = cx - (dx / 8) * 8;
                let y = cy - dy;
                &&& 0 <= y < analyzed@.raw.bits.height
                &&& 0 <= x
                &&& x - x % 8 + 8 <= analyzed@.raw.bits.width
                &&& cx - cx % 8 + 8 <= canvas.width
                &&& analyzed@.raw.bits.pixel(x, y)
            }),
        plan matches AlignmentPlan::Passthrough { raw } ==> forall|cx: int, cy: int|
            0 <= cx < canvas.width && 0 <= cy < canvas.height ==> #[trigger] r@.bits.pixel(cx, cy) == ({
                let sw = raw@.bits.width as int;
                let sh = raw@.bits.height as int;
                let hx = canvas.width - sw;
                let dx = ((if hx >= 0 {
                    hx / 2
                } else {
                    -((-hx) / 2)
                }) / 8) * 8;
                let hy = canvas.height - sh;
                let dy = if hy >= 0 {
                    hy / 2
                } else {
                    -((-hy) / 2)
                };
                let x = cx - dx;
                let y = cy - dy;
                &&& 0 <= y < sh
                &&& 0 <= x
                &&& x - x % 8 + 8 <= sw
                &&& cx - cx % 8 + 8 <= canvas.width
                &&& raw@.bits.pixel(x, y)
            }),
{
    let source = plan.source().clone();
    let mut buf = CanvasBuf::new(canvas);
    proof {
        assert(blank_like(buf@) =~= buf@);
    }
    render_into(plan, canvas, &mut buf);
    RegisteredPage::from_parts(buf.bits, source)
}

/// Render `plan` into a pre-allocated [`CanvasBuf`]. The buffer is reset to
/// white first, so it can be re-used across pages.
pub fn render_into(plan: AlignmentPlan, canvas: TargetCanvas, buf: &mut CanvasBuf)
    requires
        old(buf)@.wf(),
        plan.raw_view().bits.wf(),
        affine_ready(plan, canvas, old(buf)@),
    ensures
        final(buf)@.wf(),
        final(buf)@.width == old(buf)@.width,
        final(buf)@.height == old(buf)@.height,
        match lossless_render(plan, canvas, blank_like(old(buf)@)) {
            Some(bytes) => final(buf)@.bytes == bytes,
            None => final(buf)@.padding_clear() && (has_black(final(buf)@) ==> has_black(
                plan.raw_view().bits,
            )),
        },
        plan matches AlignmentPlan::Aligned { analyzed, kind: AlignmentKind::Translate { dx, dy } } ==> forall|
            cx: int,
            cy: int,
        |
            0 <= cx < old(buf)@.width && 0 <= cy < old(buf)@.height ==> #[trigger] final(buf)@.pixel(cx, cy)
                == ({
                let x = cx - (dx / 8) * 8;
                let y = cy - dy;
                &&& 0 <= y < analyzed@.raw.bits.height
                &&& 0 <= x
                &&& x - x % 8 + 8 <= analyzed@.raw.bits.width
                &&& cx - cx % 8 + 8 <= old(buf)@.width
                &&& analyzed@.raw.bits.pixel(x, y)
            }),
        plan matches AlignmentPlan::Passthrough { raw } ==> forall|cx: int, cy: int|
            0 <= cx < old(buf)@.width && 0 <= cy < old(buf)@.height ==> #[trigger] final(buf)@.pixel(cx, cy)
                == ({
                let sw = raw@.bits.width as int;
                let sh = raw@.bits.height as int;
                let hx = canvas.width - sw;
                let dx = ((if hx >= 0 {
                    hx / 2
                } else {
                    -((-hx) / 2)
                }) / 8) * 8;
                let hy = canvas.height - sh;
                let dy = if hy >= 0 {
                    hy / 2
                } else {
                    -((-hy) / 2)
                };
                let x = cx - dx;
                let y = cy - dy;
                &&& 0 <= y < sh
                &&& 0 <= x
                &&& x - x % 8 + 8 <= sw
                &&& cx - cx % 8 + 8 <= old(buf)@.width
                &&& raw@.bits.pixel(x, y)
            }),
{
    let ghost plan0 = plan;
    let ghost buf0 = buf@;
    buf.reset();
    match plan {
        AlignmentPlan::Aligned { analyzed, kind } => match kind {
            AlignmentKind::Translate { dx, dy } => {
                blit_lossless_bits(analyzed.raw().bits(), &mut buf.bits, dx, dy);
                proof {
                    let bytes = buf@.bytes;
                    assert(lossless_render(
                        AlignmentPlan::Aligned { analyzed, kind: AlignmentKind::Translate { dx, dy } },
                        canvas,
                        blank_like(buf0),
                    ) == Some(bytes));
                    lemma_translate_placement(analyzed, dx, dy, buf0, canvas, bytes);
                    assert(buf@.stride == buf0.stride);
                    assert forall|cx: int, cy: int|
                        0 <= cx < buf0.width && 0 <= cy < buf0.height implies #[trigger] buf@.pixel(cx, cy)
                            == ({
                let x = cx - (dx / 8) * 8;
                let y = cy - dy;
                &&& 0 <= y < analyzed@.raw.bits.height
                &&& 0 <= x
                &&& x - x % 8 + 8 <= analyzed@.raw.bits.width
                &&& cx - cx % 8 + 8 <= buf0.width
                &&& analyzed@.raw.bits.pixel(x, y)
            }) by {
                        assert(buf@.pixel(cx, cy) == bit_at(bytes[cy * buf0.stride + cx / 8], cx % 8));
                    }
                }
            },
            AlignmentKind::Affine(transform) => {
                render_affine_into(analyzed.raw(), &transform, canvas, &mut buf.bits);
            },
        },
        AlignmentPlan::Passthrough { raw } => {
            let src_w = raw.bits().width();
            let src_h = raw.bits().height();
            let dx_pixels = round_down_to_byte((canvas.width as i64 - src_w as i64) / 2);
            let dy_pixels = (canvas.height as i64 - src_h as i64) / 2;
            blit_lossless_bits(raw.bits(), &mut buf.bits, dx_pixels as i32, dy_pixels as i32);
            proof {
                let bytes = buf@.bytes;
                assert(lossless_render(AlignmentPlan::Passthrough { raw }, canvas, blank_like(buf0)) == Some(bytes));
                lemma_passthrough_placement(raw, buf0, canvas, bytes);
                assert(buf@.stride == buf0.stride);
                assert forall|cx: int, cy: int|
                    0 <= cx < buf0.width && 0 <= cy < buf0.height implies #[trigger] buf@.pixel(cx, cy)
                        == ({
                let sw = raw@.bits.width as int;
                let sh = raw@.bits.height as int;
                let hx = canvas.width - sw;
                let dx = ((if hx >= 0 {
                    hx / 2
                } else {
                    -((-hx) / 2)
                }) / 8) * 8;
                let hy = canvas.height - sh;
                let dy = if hy >= 0 {
                    hy / 2
                } else {
                    -((-hy) / 2)
                };
                let x = cx - dx;
                let y = cy - dy;
                &&& 0 <= y < sh
                &&& 0 <= x
                &&& x - x % 8 + 8 <= sw
                &&& cx - cx % 8 + 8 <= buf0.width
                &&& raw@.bits.pixel(x, y)
            }) by {
                    assert(buf@.pixel(cx, cy) == bit_at(bytes[cy * buf0.stride + cx / 8], cx % 8));
                }
            }
        },
    }
}

/// Affine path: unpack to grayscale, warp, re-binarise, pack into `dest`.
fn render_affine_into(
    raw: &RawPage,
    transform: &imageproc::geometric_transformations::Projection,
    canvas: TargetCanvas,
    dest: &mut BitPage,
)
    requires
        raw.wf(),
        old(dest).wf(),
        old(dest)@.width == canvas.width,
        old(dest)@.height == canvas.height,
        canvas.width > 0,
        canvas.width * canvas.height <= usize::MAX,
        raw@.bits.width * raw@.bits.height <= u32::MAX,
    ensures
        final(dest).wf(),
        final(dest)@.width == old(dest)@.width,
        final(dest)@.height == old(dest)@.height,
        final(dest)@.padding_clear(),
        has_black(final(dest)@) ==> has_black(raw@.bits),
{
    let ghost sv = raw@.bits;
    let src_gray = bit_unpack_to_grayscale(raw.bits());
    let ghost src_seq = src_gray@;
    let mut tmp = warp_nearest_white(
        src_gray,
        raw.bits().width(),
        raw.bits().height(),
        transform,
        canvas.width,
        canvas.height,
    );
    let ghost warped = tmp@;
    rebinarise_in_place(&mut tmp);
    pack_into_bitpage(&tmp, dest);
    proof {
        let dv = dest@;
        let w = canvas.width as int;
        assert(dv.padding_clear());
        if has_black(dv) {
            let (x, y) = choose|x: int, y: int| dv.is_black(x, y);
            lemma_row_in_bounds(y, w, dv.height as int);
            let i = y * w + x;
            assert(gray_row(tmp@, w, y)[x] == tmp@[i]);
            assert(tmp@[i] == 0u8);
            assert(warped[i] < BLACK_THRESHOLD);
            let j = choose|j: int| 0 <= j < src_seq.len() && warped[i] == src_seq[j];
            let sw = sv.width as int;
            assert(sw > 0) by (nonlinear_arith)
                requires
                    0 <= j < sw * sv.height,
            ;
            let sx = j % sw;
            let sy = j / sw;
            lemma_fundamental_div_mod(j, sw);
            assert(0 <= sy < sv.height) by (nonlinear_arith)
                requires
                    j == sw * sy + sx,
                    0 <= sx < sw,
                    0 <= j < sw * sv.height,
            ;
            assert(sv.is_black(sx, sy));
        }
    }
}

} // verus!
