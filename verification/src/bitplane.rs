//! Bit-packed 1-bit-per-pixel page buffer.
//!
//! - `bits[y * stride + x / 8]` holds 8 consecutive pixels of row `y`.
//! - Within each byte, bit `7 - (x % 8)` (most significant first) is the
//!   pixel: `1` for black, `0` for white, the PBM P4 polarity.
//! - `stride = ceil(width / 8)` bytes per row. The trailing bits of the last
//!   byte of a row (when `width % 8 != 0`) are padding and are kept zero by
//!   every writer in this crate.

use vstd::prelude::*;
use vstd::arithmetic::div_mod::{lemma_fundamental_div_mod, lemma_fundamental_div_mod_converse};

verus! {

/// Whether bit `k` of `b` is set, counting from the most significant bit
/// (`k == 0`) to the least significant (`k == 7`).
pub open spec fn bit_at(b: u8, k: int) -> bool {
    (b >> ((7 - k) as u8)) & 1u8 == 1u8
}

/// Bytes per row for a page `width` pixels wide.
pub open spec fn stride_for(width: nat) -> nat {
    (width + 7) / 8
}

/// The mathematical content of a [`BitPage`].
pub struct BitPageView {
    pub width: nat,
    pub height: nat,
    pub stride: nat,
    pub bytes: Seq<u8>,
}

impl BitPageView {
    /// The stride matches the width and the buffer holds exactly
    /// `stride * height` bytes.
    pub open spec fn wf(self) -> bool {
        &&& self.stride == stride_for(self.width)
        &&& self.bytes.len() == self.stride * self.height
        &&& self.width <= u32::MAX
        &&& self.height <= u32::MAX
    }

    /// Index of the byte that holds pixel `(x, y)`.
    pub open spec fn byte_index(self, x: int, y: int) -> int {
        y * self.stride + x / 8
    }

    /// Whether pixel `(x, y)` is black.
    pub open spec fn pixel(self, x: int, y: int) -> bool {
        bit_at(self.bytes[self.byte_index(x, y)], x % 8)
    }

    /// Whether `(x, y)` lies on the page.
    pub open spec fn in_bounds(self, x: int, y: int) -> bool {
        0 <= x < self.width && 0 <= y < self.height
    }

    /// Pixel `(x, y)` is on the page and black.
    pub open spec fn is_black(self, x: int, y: int) -> bool {
        self.in_bounds(x, y) && self.pixel(x, y)
    }

    /// The grayscale image of the page, row-major: `0` for a black pixel,
    /// `255` for a white one.
    pub open spec fn gray(self) -> Seq<u8> {
        Seq::new(
            self.width * self.height,
            |i: int|
                if self.pixel(i % (self.width as int), i / (self.width as int)) {
                    0u8
                } else {
                    255u8
                },
        )
    }

    /// Every padding bit (right of the last pixel of a row) is zero.
    pub open spec fn padding_clear(self) -> bool {
        forall|x: int, y: int|
            0 <= y < self.height && self.width <= x < self.stride * 8 ==> !#[trigger] self.pixel(x, y)
    }

    /// Every byte is zero: the page is white.
    pub open spec fn all_white(self) -> bool {
        forall|i: int| 0 <= i < self.bytes.len() ==> #[trigger] self.bytes[i] == 0u8
    }
}

/// 1-bit-per-pixel bitonal page. `1 = black`, `0 = white`.
#[derive(Debug, Clone)]
pub struct BitPage {
    pub(crate) bits: Vec<u8>,
    pub(crate) width: u32,
    pub(crate) height: u32,
    pub(crate) stride: usize,
}

impl View for BitPage {
    type V = BitPageView;

    closed spec fn view(&self) -> BitPageView {
        BitPageView {
            width: self.width as nat,
            height: self.height as nat,
            stride: self.stride as nat,
            bytes: self.bits@,
        }
    }
}

impl BitPage {
    /// The page is well formed: see [`BitPageView::wf`].
    pub open spec fn wf(&self) -> bool {
        self@.wf()
    }

    /// Allocate a fresh white page of the given dimensions.
    pub fn new_white(width: u32, height: u32) -> (r: Self)
        requires
            stride_for(width as nat) * height <= usize::MAX,
        ensures
            r.wf(),
            r@.width == width,
            r@.height == height,
            r@.all_white(),
    {
        let stride = (width as usize).div_ceil(8);
        let bits = vec![0_u8; stride * height as usize];
        Self { bits, width, height, stride }
    }

    /// Construct a page from a PBM-P4 pixel buffer whose length is
    /// `ceil(width / 8) * height`.
    pub fn from_packed(bits: Vec<u8>, width: u32, height: u32) -> (r: Self)
        requires
            bits@.len() == stride_for(width as nat) * height,
        ensures
            r.wf(),
            r@.width == width,
            r@.height == height,
            r@.bytes == bits@,
    {
        let stride = (width as usize).div_ceil(8);
        Self { bits, width, height, stride }
    }

    /// Pixel width.
    pub fn width(&self) -> (r: u32)
        ensures
            r == self@.width,
    {
        self.width
    }

    /// Pixel height.
    pub fn height(&self) -> (r: u32)
        ensures
            r == self@.height,
    {
        self.height
    }

    /// Bytes-per-row stride.
    pub fn stride(&self) -> (r: usize)
        ensures
            r == self@.stride,
    {
        self.stride
    }

    /// Underlying bit buffer (`stride * height` bytes).
    pub fn bytes(&self) -> (r: &[u8])
        ensures
            r@ == self@.bytes,
    {
        self.bits.as_slice()
    }

    /// Mutable underlying bit buffer. A slice keeps its length, so the page
    /// stays well formed whatever is written through it.
    pub fn bytes_mut(&mut self) -> (r: &mut [u8])
        ensures
            r@ == old(self)@.bytes,
            final(self)@.bytes == final(r)@,
            final(self)@.width == old(self)@.width,
            final(self)@.height == old(self)@.height,
            final(self)@.stride == old(self)@.stride,
            old(self).wf() && final(r)@.len() == r@.len() ==> final(self).wf(),
    {
        self.bits.as_mut_slice()
    }

    /// Reset every byte to `0` (white).
    pub fn reset_white(&mut self)
        ensures
            final(self)@.width == old(self)@.width,
            final(self)@.height == old(self)@.height,
            final(self)@.stride == old(self)@.stride,
            final(self)@.bytes.len() == old(self)@.bytes.len(),
            final(self)@.all_white(),
            old(self).wf() ==> final(self).wf(),
    {
        let n = self.bits.len();
        let mut i: usize = 0;
        while i < n
            invariant
                n == self.bits@.len(),
                n == old(self).bits@.len(),
                i <= n,
                self.width == old(self).width,
                self.height == old(self).height,
                self.stride == old(self).stride,
                forall|j: int| 0 <= j < i ==> #[trigger] self.bits@[j] == 0u8,
            decreases n - i,
        {
            self.bits.set(i, 0);
            i = i + 1;
        }
    }

    /// Decompose into the packed buffer and the dimensions.
    pub fn into_parts(self) -> (r: (Vec<u8>, u32, u32))
        ensures
            r.0@ == self@.bytes,
            r.1 == self@.width,
            r.2 == self@.height,
    {
        (self.bits, self.width, self.height)
    }

    /// Borrow row `y`'s bytes.
    pub fn row(&self, y: u32) -> (r: &[u8])
        requires
            self.wf(),
            y < self@.height || self@.stride == 0,
        ensures
            r@ == self@.bytes.subrange(y * self@.stride, y * self@.stride + self@.stride),
    {
        let n = self.bits.len();
        proof {
            lemma_row_start(y as int, self.stride as int, self.height as int);
        }
        let off = y as usize * self.stride;
        &self.bits[off..off + self.stride]
    }

    /// Mutable borrow of row `y`'s bytes; the rest of the buffer is kept.
    pub fn row_mut(&mut self, y: u32) -> (r: &mut [u8])
        requires
            old(self).wf(),
            y < old(self)@.height || old(self)@.stride == 0,
        ensures
            r@ == old(self)@.bytes.subrange(y * old(self)@.stride, y * old(self)@.stride + old(self)@.stride),
            final(self)@.bytes == old(self)@.bytes.subrange(0, y * old(self)@.stride) + final(r)@
                + old(self)@.bytes.subrange(y * old(self)@.stride + old(self)@.stride, old(self)@.bytes.len() as int),
            final(self)@.width == old(self)@.width,
            final(self)@.height == old(self)@.height,
            final(self)@.stride == old(self)@.stride,
            old(self).wf() && final(r)@.len() == r@.len() ==> final(self).wf(),
    {
        let n = self.bits.len();
        proof {
            lemma_row_start(y as int, self.stride as int, self.height as int);
        }
        let off = y as usize * self.stride;
        let stride = self.stride;
        let all = self.bits.as_mut_slice();
        let (_, rest) = all.split_at_mut(off);
        let (r, _) = rest.split_at_mut(stride);
        r
    }
}

/// Where row `y` starts, for a row inside the buffer or for rows of no
/// bytes at all (every row of a zero-width page is the empty slice at 0).
proof fn lemma_row_start(y: int, stride: int, height: int)
    requires
        0 <= y,
        0 <= stride,
        0 <= height,
        y < height || stride == 0,
    ensures
        0 <= y * stride,
        y * stride + stride <= stride * height,
        stride == 0 ==> y * stride == 0,
{
    if y < height {
        lemma_row_in_bounds(y, stride, height);
    } else {
        assert(y * stride == 0) by (nonlinear_arith)
            requires
                stride == 0,
        ;
    }
    assert(stride == 0 ==> y * stride == 0) by (nonlinear_arith);
    assert(0 <= stride * height) by (nonlinear_arith)
        requires
            0 <= stride,
            0 <= height,
    ;
}

/// Row `y` of a `height`-row buffer with `stride` bytes per row lies
/// inside the buffer.
pub proof fn lemma_row_in_bounds(y: int, stride: int, height: int)
    requires
        0 <= y < height,
        0 <= stride,
    ensures
        0 <= y * stride,
        y * stride + stride <= height * stride,
        y * stride + stride <= stride * height,
{
    assert(y * stride + stride <= height * stride && height * stride == stride * height) by (nonlinear_arith)
        requires
            0 <= y < height,
            0 <= stride,
    ;
    assert(0 <= y * stride) by (nonlinear_arith)
        requires
            0 <= y,
            0 <= stride,
    ;
}

// ---- pack / unpack helpers shared by the PBM codec and the affine render path.

/// Whether gray pixel `x` of a row `width` pixels wide packs to black.
/// Pixels that fill a whole byte are black when their high bit is clear
/// (value below 128); pixels of the trailing partial byte are black only
/// when exactly `0`. On bitonal input (`0` or `255`) both read `0` as black.
pub open spec fn packs_black(src: Seq<u8>, x: int, width: int) -> bool {
    if x < (width / 8) * 8 {
        src[x] < 128u8
    } else {
        src[x] == 0u8
    }
}

/// `dest` holds the packed form of the gray row `src`: bit `k` of byte `j`
/// is pixel `8 * j + k`, and bits past `width` are zero.
pub open spec fn row_packed(src: Seq<u8>, dest: Seq<u8>, width: int) -> bool {
    forall|j: int, k: int|
        0 <= j < stride_for(width as nat) && 0 <= k < 8 ==> #[trigger] bit_at(dest[j], k) == (8 * j
            + k < width && packs_black(src, 8 * j + k, width))
}

proof fn lemma_pack8(
    p0: u8,
    p1: u8,
    p2: u8,
    p3: u8,
    p4: u8,
    p5: u8,
    p6: u8,
    p7: u8,
    block: u64,
    h: u64,
    m: u64,
    r: u8,
)
    by (bit_vector)
    requires
        block == ((p0 as u64) << 56u64) | ((p1 as u64) << 48u64) | ((p2 as u64) << 40u64) | ((
        p3 as u64) << 32u64) | ((p4 as u64) << 24u64) | ((p5 as u64) << 16u64) | ((p6 as u64)
            << 8u64) | (p7 as u64),
        h == !block & 0x8080_8080_8080_8080u64,
        m == ((h as nat * 0x0002_0408_1020_4081u64 as nat) % 0x1_0000_0000_0000_0000nat) as u64,
        r == (m >> 56u64) as u8,
    ensures
        ((r >> 7u8) & 1u8 == 1u8) == (p0 < 128u8),
        ((r >> 6u8) & 1u8 == 1u8) == (p1 < 128u8),
        ((r >> 5u8) & 1u8 == 1u8) == (p2 < 128u8),
        ((r >> 4u8) & 1u8 == 1u8) == (p3 < 128u8),
        ((r >> 3u8) & 1u8 == 1u8) == (p4 < 128u8),
        ((r >> 2u8) & 1u8 == 1u8) == (p5 < 128u8),
        ((r >> 1u8) & 1u8 == 1u8) == (p6 < 128u8),
        ((r >> 0u8) & 1u8 == 1u8) == (p7 < 128u8),
{
}

/// Setting bit `i` of `b` sets bit `i` and leaves every other bit alone.
proof fn lemma_set_bit(b: u8, i: u8, k: u8)
    by (bit_vector)
    requires
        i < 8,
        k < 8,
    ensures
        (((b | (1u8 << ((7 - i) as u8))) >> ((7 - k) as u8)) & 1u8 == 1u8) == (k == i || ((b >> ((
        7 - k) as u8)) & 1u8 == 1u8)),
{
}

/// No bit of `0` is set.
proof fn lemma_zero_bits(k: u8)
    by (bit_vector)
    requires
        k < 8,
    ensures
        (0u8 >> ((7 - k) as u8)) & 1u8 != 1u8,
{
}

/// `b & (1 << (7 - k))` is zero exactly when bit `k` of `b` is clear.
proof fn lemma_mask_bit(b: u8, k: u8)
    by (bit_vector)
    requires
        k < 8,
    ensures
        (b & (1u8 << ((7 - k) as u8)) == 0u8) == !((b >> ((7 - k) as u8)) & 1u8 == 1u8),
{
}

/// Pack 8 gray pixels into one byte, most significant bit first: a bit is
/// set when its pixel's high bit is clear.
fn pack_8_pixels_u64(p: [u8; 8]) -> (r: u8)
    ensures
        forall|k: int| 0 <= k < 8 ==> bit_at(r, k) == (p[k] < 128u8),
{
    let block: u64 = ((p[0] as u64) << 56u64) | ((p[1] as u64) << 48u64) | ((p[2] as u64) << 40u64)
        | ((p[3] as u64) << 32u64) | ((p[4] as u64) << 24u64) | ((p[5] as u64) << 16u64) | ((
    p[6] as u64) << 8u64) | (p[7] as u64);
    let highs = (!block) & 0x8080_8080_8080_8080_u64;
    let m = highs.wrapping_mul(0x0002_0408_1020_4081_u64);
    let r = (m >> 56u64) as u8;
    proof {
        lemma_pack8(p[0], p[1], p[2], p[3], p[4], p[5], p[6], p[7], block, highs, m, r);
    }
    r
}

/// Pack one row of 8-bit grayscale (`0` = black, `255` = white) into the
/// PBM bit polarity (`1` = black). Bytes of `dest` past the packed row are
/// left as they were.
pub(crate) fn pack_row(src: &[u8], dest: &mut [u8], width: usize)
    requires
        src@.len() >= width,
        old(dest)@.len() >= stride_for(width as nat),
    ensures
        final(dest)@.len() == old(dest)@.len(),
        row_packed(src@, final(dest)@, width as int),
        forall|j: int|
            stride_for(width as nat) <= j < old(dest)@.len() ==> #[trigger] final(dest)@[j]
                == old(dest)@[j],
{
    let full_bytes = width / 8;
    let tail = width - full_bytes * 8;
    let mut byte_idx: usize = 0;
    while byte_idx < full_bytes
        invariant
            full_bytes == width / 8,
            src@.len() >= width,
            byte_idx <= full_bytes,
            dest@.len() == old(dest)@.len(),
            old(dest)@.len() >= stride_for(width as nat),
            forall|j: int, k: int|
                0 <= j < byte_idx && 0 <= k < 8 ==> #[trigger] bit_at(dest@[j], k) == (src@[8 * j
                    + k] < 128u8),
            forall|j: int| byte_idx <= j < dest@.len() ==> #[trigger] dest@[j] == old(dest)@[j],
        decreases full_bytes - byte_idx,
    {
        let b = byte_idx * 8;
        let arr: [u8; 8] = [
            src[b],
            src[b + 1],
            src[b + 2],
            src[b + 3],
            src[b + 4],
            src[b + 5],
            src[b + 6],
            src[b + 7],
        ];
        let packed = pack_8_pixels_u64(arr);
        dest[byte_idx] = packed;
        byte_idx = byte_idx + 1;
    }
    if tail > 0 {
        let base = full_bytes * 8;
        let mut last = 0_u8;
        let mut i: usize = 0;
        proof {
            assert forall|k: int| 0 <= k < 8 implies !bit_at(last, k) by {
                lemma_zero_bits(k as u8);
            }
        }
        while i < tail
            invariant
                tail < 8,
                base + tail == width,
                src@.len() >= width,
                i <= tail,
                forall|k: int| 0 <= k < i ==> bit_at(last, k) == (src@[base + k] == 0u8),
                forall|k: int| i <= k < 8 ==> !bit_at(last, k),
            decreases tail - i,
        {
            if src[base + i] == 0 {
                let ghost prev = last;
                last = last | (1u8 << ((7 - i) as u8));
                proof {
                    assert forall|k: int| 0 <= k < 8 implies bit_at(last, k) == (k == i || bit_at(
                        prev,
                        k,
                    )) by {
                        lemma_set_bit(prev, i as u8, k as u8);
                    }
                }
            }
            i = i + 1;
        }
        dest[full_bytes] = last;
    }
}

/// Gray value of pixel `k` of byte `b` unpacked: `0` for a set bit
/// (black), `255` for a clear one.
pub open spec fn unpacked_pixel(b: u8, k: int) -> u8 {
    if bit_at(b, k) {
        0u8
    } else {
        255u8
    }
}

/// A byte is determined by its 8 bits.
pub proof fn lemma_bits_determine_byte(a: u8, b: u8)
    requires
        forall|k: int| 0 <= k < 8 ==> #[trigger] bit_at(a, k) == bit_at(b, k),
    ensures
        a == b,
{
    assert(bit_at(a, 0) == bit_at(b, 0));
    assert(bit_at(a, 1) == bit_at(b, 1));
    assert(bit_at(a, 2) == bit_at(b, 2));
    assert(bit_at(a, 3) == bit_at(b, 3));
    assert(bit_at(a, 4) == bit_at(b, 4));
    assert(bit_at(a, 5) == bit_at(b, 5));
    assert(bit_at(a, 6) == bit_at(b, 6));
    assert(bit_at(a, 7) == bit_at(b, 7));
    assert(a == b) by (bit_vector)
        requires
            ((a >> 7u8) & 1u8 == 1u8) == ((b >> 7u8) & 1u8 == 1u8),
            ((a >> 6u8) & 1u8 == 1u8) == ((b >> 6u8) & 1u8 == 1u8),
            ((a >> 5u8) & 1u8 == 1u8) == ((b >> 5u8) & 1u8 == 1u8),
            ((a >> 4u8) & 1u8 == 1u8) == ((b >> 4u8) & 1u8 == 1u8),
            ((a >> 3u8) & 1u8 == 1u8) == ((b >> 3u8) & 1u8 == 1u8),
            ((a >> 2u8) & 1u8 == 1u8) == ((b >> 2u8) & 1u8 == 1u8),
            ((a >> 1u8) & 1u8 == 1u8) == ((b >> 1u8) & 1u8 == 1u8),
            ((a >> 0u8) & 1u8 == 1u8) == ((b >> 0u8) & 1u8 == 1u8),
    ;
}

/// Packing is the inverse of unpacking: a byte whose 8 bits are the packed
/// form of byte `b`'s unpacked pixels is `b` itself.
pub proof fn lemma_pack_unpack_roundtrip(b: u8, r: u8)
    requires
        forall|k: int| 0 <= k < 8 ==> bit_at(r, k) == (#[trigger] unpacked_pixel(b, k) < 128u8),
    ensures
        r == b,
{
    assert forall|k: int| 0 <= k < 8 implies #[trigger] bit_at(r, k) == bit_at(b, k) by {
        assert(bit_at(r, k) == (unpacked_pixel(b, k) < 128u8));
    }
    lemma_bits_determine_byte(r, b);
}

/// Two well-formed pages of one size whose pixels agree and whose padding
/// bits are clear hold the same bytes.
pub proof fn lemma_pixels_determine_bytes(v: BitPageView, w: BitPageView)
    requires
        v.wf(),
        w.wf(),
        w.width == v.width,
        w.height == v.height,
        v.padding_clear(),
        w.padding_clear(),
        forall|x: int, y: int| 0 <= y < v.height && 0 <= x < v.width ==> #[trigger] w.pixel(x, y) == v.pixel(x, y),
    ensures
        w.bytes == v.bytes,
{
    let s = v.stride as int;
    assert forall|i: int| 0 <= i < v.bytes.len() implies #[trigger] w.bytes[i] == v.bytes[i] by {
        assert(s > 0) by (nonlinear_arith)
            requires
                0 <= i < s * v.height,
                s >= 0,
        ;
        let y = i / s;
        let j = i % s;
        lemma_fundamental_div_mod(i, s);
        assert(0 <= y < v.height) by (nonlinear_arith)
            requires
                i == s * y + j,
                0 <= j < s,
                0 <= i < s * v.height,
        ;
        assert(i == y * s + j) by (nonlinear_arith)
            requires
                i == s * y + j,
        ;
        assert forall|k: int| 0 <= k < 8 implies #[trigger] bit_at(w.bytes[i], k) == bit_at(v.bytes[i], k) by {
            let x = 8 * j + k;
            lemma_fundamental_div_mod_converse(x, 8, j, k);
            assert(v.byte_index(x, y) == i);
            assert(w.byte_index(x, y) == i);
            if x < v.width {
                assert(w.pixel(x, y) == v.pixel(x, y));
            } else {
                assert(!v.pixel(x, y));
                assert(!w.pixel(x, y));
            }
        }
        lemma_bits_determine_byte(w.bytes[i], v.bytes[i]);
    }
    assert(w.bytes =~= v.bytes);
}

/// Unpack table: entry `b` holds the 8 grayscale pixels (`0` black,
/// `255` white) that byte `b` encodes.
pub(crate) fn unpack_table() -> (r: Vec<[u8; 8]>)
    ensures
        r@.len() == 256,
        forall|b: int, k: int| 0 <= b < 256 && 0 <= k < 8 ==> #[trigger] r@[b][k] == unpacked_pixel(b as u8, k),
{
    let mut table: Vec<[u8; 8]> = Vec::new();
    let mut byte_idx: usize = 0;
    while byte_idx < 256
        invariant
            byte_idx <= 256,
            table@.len() == byte_idx,
            forall|b: int, k: int|
                0 <= b < byte_idx && 0 <= k < 8 ==> #[trigger] table@[b][k] == if bit_at(
                    b as u8,
                    k,
                ) {
                    0u8
                } else {
                    255u8
                },
        decreases 256 - byte_idx,
    {
        let byte = byte_idx as u8;
        let mut entry = [0_u8; 8];
        let mut bit: usize = 0;
        while bit < 8
            invariant
                bit <= 8,
                byte == byte_idx as u8,
                forall|k: int|
                    0 <= k < bit ==> #[trigger] entry[k] == if bit_at(byte, k) {
                        0u8
                    } else {
                        255u8
                    },
            decreases 8 - bit,
        {
            let mask = 1_u8 << ((7 - bit) as u8);
            proof {
                lemma_mask_bit(byte, bit as u8);
            }
            entry[bit] = if byte & mask == 0 {
                255
            } else {
                0
            };
            bit = bit + 1;
        }
        table.push(entry);
        byte_idx = byte_idx + 1;
    }
    table
}

} // verus!