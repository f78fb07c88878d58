//! Build the per-page transform that maps source coordinates onto the
//! reference layout.
//!
//! Currently translation-only: no destructive resampling.

use vstd::prelude::*;

use crate::page::{AlignmentKind, AlignmentPlan, AnalyzedPage, BoundingBox, RawPage};
use crate::reference::ReferenceLayout;

verus! {

/// Knobs governing which alignment components to compute.
#[derive(Debug, Clone, Copy, PartialEq, Eq, Structural)]
pub struct PlanOptions {
    /// If `false`, skip the per-page scale normalization step.
    pub scale: bool,
    /// If `false`, skip the per-page skew correction step.
    pub skew: bool,
}

impl Default for PlanOptions {
    /// Every component on.
    fn default() -> (r: Self)
        ensures
            r.scale && r.skew,
    {
        Self { scale: true, skew: true }
    }
}

/// Pages whose main-column box is less than this percentage of the corpus
/// reference, in either dimension, are outliers and pass through.
pub const OUTLIER_RATIO_PERCENT: u32 = 50;

/// `src` is large enough next to `target`, in both dimensions, to be
/// aligned (at least half the reference width and height).
pub open spec fn size_matches(src: BoundingBox, target: BoundingBox) -> bool {
    let tw = if target.width >= 1 { target.width as int } else { 1 };
    let th = if target.height >= 1 { target.height as int } else { 1 };
    &&& src.width * 100 >= tw * OUTLIER_RATIO_PERCENT
    &&& src.height * 100 >= th * OUTLIER_RATIO_PERCENT
}

/// The products of the outlier test fit in `u32`.
pub open spec fn ratio_fits(src: BoundingBox, target: BoundingBox) -> bool {
    let tw = if target.width >= 1 { target.width as int } else { 1 };
    let th = if target.height >= 1 { target.height as int } else { 1 };
    &&& src.width * 100 <= u32::MAX
    &&& src.height * 100 <= u32::MAX
    &&& tw * OUTLIER_RATIO_PERCENT <= u32::MAX
    &&& th * OUTLIER_RATIO_PERCENT <= u32::MAX
}

/// A `u32` reinterpreted as an `i32` (two's complement wrap).
pub open spec fn wrap_i32(v: int) -> int {
    if v <= i32::MAX {
        v
    } else {
        v - 0x1_0000_0000
    }
}

/// The top-right corner of a box (its right edge saturated at `u32::MAX`),
/// as `i32` coordinates.
pub open spec fn anchor(b: BoundingBox) -> (int, int) {
    let right = if b.x + b.width > u32::MAX {
        u32::MAX as int
    } else {
        b.x + b.width
    };
    (wrap_i32(right), wrap_i32(b.y as int))
}

/// Integer division rounding toward zero, as Rust's `/` on signed integers.
pub open spec fn div_toward_zero(a: int, d: int) -> int {
    if a >= 0 {
        a / d
    } else {
        -((-a) / d)
    }
}

/// `x` rounded to a multiple of 8: to the nearest one, halves toward zero.
pub open spec fn round_to_byte_spec(x: int) -> int {
    let bias = if x >= 0 {
        3int
    } else {
        -3int
    };
    div_toward_zero(x + bias, 8) * 8
}

/// The raw translation taking `src`'s anchor onto `target`'s.
pub open spec fn raw_offset(src: BoundingBox, target: BoundingBox) -> (int, int) {
    (anchor(target).0 - anchor(src).0, anchor(target).1 - anchor(src).1)
}

/// The `i32` arithmetic of an alignment does not overflow.
pub open spec fn offset_fits(src: BoundingBox, target: BoundingBox) -> bool {
    let (dx, dy) = raw_offset(src, target);
    &&& i32::MIN <= dx && dx <= i32::MAX
    &&& i32::MIN <= dy && dy <= i32::MAX
    &&& i32::MIN <= dx - 3 && dx + 3 <= i32::MAX
}

/// The outlier rule: a page is aligned exactly when its main column is at
/// least half as wide as the reference box and at least half as tall, each
/// dimension compared with the same dimension of the reference (a reference
/// side of zero counting as one); a page under half in either passes
/// through.
pub proof fn lemma_outlier_rule(src: BoundingBox, target: BoundingBox)
    ensures
        size_matches(src, target) <==> {
            &&& src.width * 100 >= (if target.width >= 1 { target.width as int } else { 1 }) * 50
            &&& src.height * 100 >= (if target.height >= 1 { target.height as int } else { 1 }) * 50
        },
        !size_matches(src, target) <==> {
            ||| src.width * 100 < (if target.width >= 1 { target.width as int } else { 1 }) * 50
            ||| src.height * 100 < (if target.height >= 1 { target.height as int } else { 1 }) * 50
        },
{
}

/// Compute an [`AlignmentPlan`] for a single analyzed page against the
/// corpus reference.
///
/// Alignment anchors on the **top-right corner** of the main-column box,
/// where the first column of vertical Japanese text begins. Pages whose box
/// is less than half the reference in either dimension are outliers and
/// pass through. The horizontal offset is rounded to a multiple of 8 so the
/// render stays a byte-aligned copy.
pub fn plan_alignment(analyzed: AnalyzedPage, reference: &ReferenceLayout, options: PlanOptions) -> (r: AlignmentPlan)
    requires
        ratio_fits(analyzed@.layout.main_column, reference.box_for(analyzed@.parity)),
        size_matches(analyzed@.layout.main_column, reference.box_for(analyzed@.parity))
            ==> offset_fits(analyzed@.layout.main_column, reference.box_for(analyzed@.parity)),
    ensures
        ({
            let src = analyzed@.layout.main_column;
            let target = reference.box_for(analyzed@.parity);
            let ref_w = if target.width >= 1 { target.width as int } else { 1 };
            let ref_h = if target.height >= 1 { target.height as int } else { 1 };
            (r is Passthrough) <==> (src.width * 100 < ref_w * 50 || src.height * 100 < ref_h * 50)
        }),
        ({
            let src = analyzed@.layout.main_column;
            let target = reference.box_for(analyzed@.parity);
            if size_matches(src, target) {
                r matches AlignmentPlan::Aligned {
                    analyzed: a,
                    kind: AlignmentKind::Translate { dx, dy },
                } && a@ == analyzed@ && dx == round_to_byte_spec(raw_offset(src, target).0) && dy
                    == raw_offset(src, target).1
            } else {
                r matches AlignmentPlan::Passthrough { raw } && raw@ == analyzed@.raw
            }
        }),
{
    let target = reference.for_parity(analyzed.parity());
    let src = analyzed.layout().main_column;
    let tw = if target.width >= 1 {
        target.width
    } else {
        1
    };
    let th = if target.height >= 1 {
        target.height
    } else {
        1
    };
    let w_ratio_ok = src.width * 100 >= tw * OUTLIER_RATIO_PERCENT;
    let h_ratio_ok = src.height * 100 >= th * OUTLIER_RATIO_PERCENT;
    if !(w_ratio_ok && h_ratio_ok) {
        return AlignmentPlan::Passthrough { raw: analyzed.into_raw() };
    }
    let src_anchor_x = src.x.saturating_add(src.width) as i32;
    let src_anchor_y = src.y as i32;
    let target_anchor_x = target.x.saturating_add(target.width) as i32;
    let target_anchor_y = target.y as i32;
    proof {
        lemma_wrap_i32(src.x.saturating_add(src.width));
        lemma_wrap_i32(src.y);
        lemma_wrap_i32(target.x.saturating_add(target.width));
        lemma_wrap_i32(target.y);
    }
    // Scale and skew components are not computed yet: every aligned page
    // gets a pure integer translation.
    let _ = (options.scale, options.skew);
    let dx_raw = target_anchor_x - src_anchor_x;
    let dy = target_anchor_y - src_anchor_y;
    let dx = round_to_byte(dx_raw);
    AlignmentPlan::Aligned { analyzed, kind: AlignmentKind::Translate { dx, dy } }
}

/// `v as i32` is [`wrap_i32`].
proof fn lemma_wrap_i32(v: u32)
    ensures
        (v as i32) as int == wrap_i32(v as int),
{
    assert((v as i32) as int == if v <= 0x7fff_ffffu32 {
        v as int
    } else {
        v as int - 0x1_0000_0000
    }) by (bit_vector);
}

/// The horizontal offset of an alignment is the multiple of 8 nearest to
/// the raw offset; of two equally near ones it is the one nearer zero. The
/// rounding is symmetric about zero.
pub proof fn lemma_round_to_byte(x: int)
    ensures
        round_to_byte_spec(x) % 8 == 0,
        x - 4 <= round_to_byte_spec(x) <= x + 4,
        x - round_to_byte_spec(x) == 4 ==> 0 <= round_to_byte_spec(x) < x,
        round_to_byte_spec(x) - x == 4 ==> x < round_to_byte_spec(x) <= 0,
        round_to_byte_spec(-x) == -round_to_byte_spec(x),
{
    let r = round_to_byte_spec(x);
    if x >= 0 {
        let q = (x + 3) / 8;
        assert(x + 3 - 8 < q * 8 <= x + 3);
        assert(q >= 0);
        assert((q * 8) % 8 == 0);
        assert(r == q * 8);
        assert(round_to_byte_spec(-x) == if x == 0 { 0 } else { -(q * 8) });
    } else {
        let q = (-x + 3) / 8;
        assert(-x + 3 - 8 < q * 8 <= -x + 3);
        assert(q >= 0);
        assert((q * 8) % 8 == 0);
        assert(((-q) * 8) % 8 == 0);
        assert(r == -(q * 8));
        assert(round_to_byte_spec(-x) == q * 8);
    }
}

/// An aligned page's main column lands on the reference: its top edge
/// exactly on the reference's top edge, and its top-right corner within 4
/// pixels of the reference's, by a horizontal shift that is a whole number
/// of bytes (so the render copies it bit-exactly). Stated for coordinates
/// that fit in `i32`.
pub proof fn lemma_alignment_lands_on_anchor(src: BoundingBox, target: BoundingBox)
    requires
        src.x + src.width <= i32::MAX,
        src.y <= i32::MAX,
        target.x + target.width <= i32::MAX,
        target.y <= i32::MAX,
    ensures
        ({
            let dx = round_to_byte_spec(raw_offset(src, target).0);
            let dy = raw_offset(src, target).1;
            &&& src.y + dy == target.y
            &&& target.x + target.width - 4 <= src.x + src.width + dx <= target.x + target.width + 4
            &&& dx % 8 == 0
            &&& (dx / 8) * 8 == dx
        }),
{
    lemma_round_to_byte(raw_offset(src, target).0);
}

/// Round to the nearest multiple of 8, halves toward zero (the same
/// distance either side of the spine gives the same shift on recto and
/// verso).
fn round_to_byte(x: i32) -> (r: i32)
    requires
        i32::MIN <= x - 3,
        x + 3 <= i32::MAX,
    ensures
        r == round_to_byte_spec(x as int),
{
    let bias = if x >= 0 {
        3
    } else {
        -3
    };
    ((x + bias) / 8) * 8
}

/// Wrap a raw page that bypassed analysis as a
/// [`Passthrough`](AlignmentPlan::Passthrough) plan.
pub fn plan_passthrough(raw: RawPage) -> (r: AlignmentPlan)
    ensures
        r matches AlignmentPlan::Passthrough { raw: p } && p@ == raw@,
{
    AlignmentPlan::Passthrough { raw }
}

} // verus!
