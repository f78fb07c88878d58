//! Derive the per-parity reference layout from the analyzed corpus.
//!
//! For each parity (recto/verso) the reference is the **median** main-column
//! box (position and size) across every analyzed page, so that a single bad
//! scan cannot bend the reference for every other page.

use vstd::prelude::*;
use vstd::relations::{sorted_by, total_ordering};
use vstd::seq_lib::lemma_sorted_unique;

use crate::error::RegisterError;
use crate::foreign::sort_unstable_u32;
use crate::page::{AnalyzedPage, BoundingBox, Parity};
use crate::paper::TargetCanvas;

verus! {

/// Reference layout: where the main text column should land on the canvas,
/// separately for recto and verso pages.
#[derive(Debug, Clone, Copy, PartialEq, Eq, Structural)]
pub struct ReferenceLayout {
    /// Target canvas every page is rendered onto.
    pub canvas: TargetCanvas,
    /// Target box for the main column of recto pages, in canvas coordinates.
    pub recto: BoundingBox,
    /// Target box for the main column of verso pages, in canvas coordinates.
    pub verso: BoundingBox,
}

impl ReferenceLayout {
    /// The reference box for a parity.
    pub open spec fn box_for(self, parity: Parity) -> BoundingBox {
        match parity {
            Parity::Recto => self.recto,
            Parity::Verso => self.verso,
        }
    }

    /// Pick the reference box for a given parity.
    pub fn for_parity(&self, parity: Parity) -> (r: BoundingBox)
        ensures
            r == self.box_for(parity),
    {
        match parity {
            Parity::Recto => self.recto,
            Parity::Verso => self.verso,
        }
    }
}

/// The ascending order on `u32`.
pub open spec fn u32_leq() -> spec_fn(u32, u32) -> bool {
    |a: u32, b: u32| a <= b
}

/// The values of `s` in ascending order.
pub open spec fn sorted_values(s: Seq<u32>) -> Seq<u32> {
    s.sort_by(u32_leq())
}

/// Median of a non-empty sequence: the middle value once sorted, or the
/// midpoint (rounded down) of the two middle values when the length is even.
pub open spec fn median(s: Seq<u32>) -> u32 {
    let t = sorted_values(s);
    let mid = (t.len() / 2) as int;
    if t.len() % 2 == 0 {
        ((t[mid - 1] + t[mid]) / 2) as u32
    } else {
        t[mid]
    }
}

/// The per-field median of a non-empty sequence of boxes.
pub open spec fn median_box(boxes: Seq<BoundingBox>) -> BoundingBox {
    BoundingBox {
        x: median(boxes.map_values(|b: BoundingBox| b.x)),
        y: median(boxes.map_values(|b: BoundingBox| b.y)),
        width: median(boxes.map_values(|b: BoundingBox| b.width)),
        height: median(boxes.map_values(|b: BoundingBox| b.height)),
    }
}

/// The boxes of the snapshots of parity `p`, in order.
pub open spec fn parity_boxes(s: Seq<(Parity, BoundingBox)>, p: Parity) -> Seq<BoundingBox>
    decreases s.len(),
{
    if s.len() == 0 {
        Seq::empty()
    } else {
        let rest = parity_boxes(s.drop_last(), p);
        if s.last().0 == p {
            rest.push(s.last().1)
        } else {
            rest
        }
    }
}

/// The boxes of all snapshots, in order.
pub open spec fn all_boxes(s: Seq<(Parity, BoundingBox)>) -> Seq<BoundingBox> {
    s.map_values(|e: (Parity, BoundingBox)| e.1)
}

/// A box of the size of `b`, centered on the canvas (rounded down, and at
/// the origin when `b` is larger than the canvas).
pub open spec fn center_on_canvas_spec(b: BoundingBox, canvas: TargetCanvas) -> BoundingBox {
    BoundingBox {
        x: (if canvas.width >= b.width { (canvas.width - b.width) / 2 } else { 0 }) as u32,
        y: (if canvas.height >= b.height { (canvas.height - b.height) / 2 } else { 0 }) as u32,
        width: b.width,
        height: b.height,
    }
}

/// The reference box for parity `p`: the median box of the pages of that
/// parity, or of all pages when there is none of that parity, centered on
/// the canvas.
pub open spec fn reference_box(s: Seq<(Parity, BoundingBox)>, p: Parity, canvas: TargetCanvas) -> BoundingBox {
    let own = parity_boxes(s, p);
    let med = if own.len() > 0 {
        median_box(own)
    } else {
        median_box(all_boxes(s))
    };
    center_on_canvas_spec(med, canvas)
}

/// The reference layout derived from non-empty snapshots.
pub open spec fn reference_of(s: Seq<(Parity, BoundingBox)>, canvas: TargetCanvas) -> ReferenceLayout {
    ReferenceLayout {
        canvas,
        recto: reference_box(s, Parity::Recto, canvas),
        verso: reference_box(s, Parity::Verso, canvas),
    }
}

/// A reference box is centered on the canvas: its left edge is half the
/// canvas width left over beside it, its top edge half the canvas height
/// left over above it (rounded down, and `0` when the box does not fit in
/// that dimension), and its size is the median size of the boxes it was
/// derived from.
pub proof fn lemma_reference_centered(s: Seq<(Parity, BoundingBox)>, p: Parity, canvas: TargetCanvas)
    ensures
        ({
            let b = reference_box(s, p, canvas);
            let own = parity_boxes(s, p);
            let med = if own.len() > 0 {
                median_box(own)
            } else {
                median_box(all_boxes(s))
            };
            &&& b.width == med.width
            &&& b.height == med.height
            &&& b.x == (if canvas.width >= med.width { (canvas.width - med.width) / 2 } else { 0 })
            &&& b.y == (if canvas.height >= med.height { (canvas.height - med.height) / 2 } else { 0 })
        }),
{
}

/// The `(parity, main column)` snapshot of each analyzed page.
pub open spec fn snapshots_of(pages: Seq<AnalyzedPage>) -> Seq<(Parity, BoundingBox)> {
    pages.map_values(|p: AnalyzedPage| (p@.parity, p@.layout.main_column))
}

/// Derive a [`ReferenceLayout`] by taking the per-parity median main-column
/// box and centering it on the canvas.
///
/// # Errors
///
/// Returns [`RegisterError::EmptyCorpus`] if no analyzed pages were supplied.
pub fn derive_reference(pages: &[AnalyzedPage], canvas: TargetCanvas) -> (r: Result<
    ReferenceLayout,
    RegisterError,
>)
    ensures
        pages@.len() == 0 <==> r matches Err(RegisterError::EmptyCorpus),
        pages@.len() > 0 <==> r is Ok,
        r matches Ok(l) ==> l == reference_of(snapshots_of(pages@), canvas),
        r matches Ok(l) ==> l.recto.x == (if canvas.width >= l.recto.width {
            (canvas.width - l.recto.width) / 2
        } else {
            0
        }) && l.recto.y == (if canvas.height >= l.recto.height {
            (canvas.height - l.recto.height) / 2
        } else {
            0
        }),
        r matches Ok(l) ==> l.verso.x == (if canvas.width >= l.verso.width {
            (canvas.width - l.verso.width) / 2
        } else {
            0
        }) && l.verso.y == (if canvas.height >= l.verso.height {
            (canvas.height - l.verso.height) / 2
        } else {
            0
        }),
{
    let mut snapshots: Vec<(Parity, BoundingBox)> = Vec::new();
    let mut i: usize = 0;
    while i < pages.len()
        invariant
            i <= pages@.len(),
            snapshots@ == snapshots_of(pages@.subrange(0, i as int)),
        decreases pages@.len() - i,
    {
        let page = &pages[i];
        snapshots.push((page.parity(), page.layout().main_column));
        proof {
            assert(pages@.subrange(0, i + 1) == pages@.subrange(0, i as int).push(pages@[i as int]));
        }
        i = i + 1;
    }
    proof {
        assert(pages@.subrange(0, pages@.len() as int) == pages@);
    }
    derive_reference_from_snapshots(&snapshots, canvas)
}

/// Like [`derive_reference`] but takes pre-extracted `(Parity, BoundingBox)`
/// snapshots.
///
/// # Errors
///
/// Returns [`RegisterError::EmptyCorpus`] when `snapshots` is empty.
pub fn derive_reference_from_snapshots(
    snapshots: &[(Parity, BoundingBox)],
    canvas: TargetCanvas,
) -> (r: Result<ReferenceLayout, RegisterError>)
    ensures
        snapshots@.len() == 0 <==> r matches Err(RegisterError::EmptyCorpus),
        snapshots@.len() > 0 <==> r is Ok,
        r matches Ok(l) ==> l == reference_of(snapshots@, canvas),
        r matches Ok(l) ==> l.recto.x == (if canvas.width >= l.recto.width {
            (canvas.width - l.recto.width) / 2
        } else {
            0
        }) && l.recto.y == (if canvas.height >= l.recto.height {
            (canvas.height - l.recto.height) / 2
        } else {
            0
        }),
        r matches Ok(l) ==> l.verso.x == (if canvas.width >= l.verso.width {
            (canvas.width - l.verso.width) / 2
        } else {
            0
        }) && l.verso.y == (if canvas.height >= l.verso.height {
            (canvas.height - l.verso.height) / 2
        } else {
            0
        }),
{
    if snapshots.len() == 0 {
        return Err(RegisterError::EmptyCorpus);
    }
    let recto = match median_for(snapshots, Parity::Recto) {
        Some(b) => b,
        None => overall_median(snapshots),
    };
    let verso = match median_for(snapshots, Parity::Verso) {
        Some(b) => b,
        None => overall_median(snapshots),
    };
    Ok(
        ReferenceLayout {
            canvas,
            recto: center_on_canvas(recto, canvas),
            verso: center_on_canvas(verso, canvas),
        },
    )
}

/// Median box of the snapshots of one parity, if any.
fn median_for(snapshots: &[(Parity, BoundingBox)], parity: Parity) -> (r: Option<BoundingBox>)
    ensures
        parity_boxes(snapshots@, parity).len() == 0 <==> r is None,
        r matches Some(b) ==> b == median_box(parity_boxes(snapshots@, parity)),
{
    let mut boxes: Vec<BoundingBox> = Vec::new();
    let mut i: usize = 0;
    while i < snapshots.len()
        invariant
            i <= snapshots@.len(),
            boxes@ == parity_boxes(snapshots@.subrange(0, i as int), parity),
        decreases snapshots@.len() - i,
    {
        let (p, b) = snapshots[i];
        proof {
            assert(snapshots@.subrange(0, i + 1).drop_last() == snapshots@.subrange(0, i as int));
        }
        if p == parity {
            boxes.push(b);
        }
        i = i + 1;
    }
    proof {
        assert(snapshots@.subrange(0, snapshots@.len() as int) == snapshots@);
    }
    median_of(&boxes)
}

/// Median box over every snapshot. The caller guarantees `snapshots` is
/// non-empty.
fn overall_median(snapshots: &[(Parity, BoundingBox)]) -> (r: BoundingBox)
    requires
        snapshots@.len() > 0,
    ensures
        r == median_box(all_boxes(snapshots@)),
{
    let mut boxes: Vec<BoundingBox> = Vec::new();
    let mut i: usize = 0;
    while i < snapshots.len()
        invariant
            i <= snapshots@.len(),
            boxes@ == all_boxes(snapshots@.subrange(0, i as int)),
        decreases snapshots@.len() - i,
    {
        boxes.push(snapshots[i].1);
        proof {
            assert(all_boxes(snapshots@.subrange(0, i + 1)) == all_boxes(snapshots@.subrange(0, i as int)).push(snapshots@[i as int].1));
        }
        i = i + 1;
    }
    proof {
        assert(snapshots@.subrange(0, snapshots@.len() as int) == snapshots@);
    }
    match median_of(&boxes) {
        Some(b) => b,
        None => BoundingBox { x: 0, y: 0, width: 1, height: 1 },
    }
}

/// Per-field median of the boxes, or `None` when there are none.
fn median_of(boxes: &[BoundingBox]) -> (r: Option<BoundingBox>)
    ensures
        boxes@.len() == 0 <==> r is None,
        r matches Some(b) ==> b == median_box(boxes@),
{
    if boxes.len() == 0 {
        return None;
    }
    let mut xs: Vec<u32> = Vec::new();
    let mut ys: Vec<u32> = Vec::new();
    let mut widths: Vec<u32> = Vec::new();
    let mut heights: Vec<u32> = Vec::new();
    let mut i: usize = 0;
    while i < boxes.len()
        invariant
            i <= boxes@.len(),
            xs@ == boxes@.subrange(0, i as int).map_values(|b: BoundingBox| b.x),
            ys@ == boxes@.subrange(0, i as int).map_values(|b: BoundingBox| b.y),
            widths@ == boxes@.subrange(0, i as int).map_values(|b: BoundingBox| b.width),
            heights@ == boxes@.subrange(0, i as int).map_values(|b: BoundingBox| b.height),
        decreases boxes@.len() - i,
    {
        let b = boxes[i];
        xs.push(b.x);
        ys.push(b.y);
        widths.push(b.width);
        heights.push(b.height);
        proof {
            let s0 = boxes@.subrange(0, i as int);
            let s1 = boxes@.subrange(0, i + 1);
            assert(s1 == s0.push(b));
            assert(s1.map_values(|b: BoundingBox| b.x) == s0.map_values(|b: BoundingBox| b.x).push(b.x));
            assert(s1.map_values(|b: BoundingBox| b.y) == s0.map_values(|b: BoundingBox| b.y).push(b.y));
            assert(s1.map_values(|b: BoundingBox| b.width) == s0.map_values(|b: BoundingBox| b.width).push(b.width));
            assert(s1.map_values(|b: BoundingBox| b.height) == s0.map_values(|b: BoundingBox| b.height).push(b.height));
        }
        i = i + 1;
    }
    proof {
        assert(boxes@.subrange(0, boxes@.len() as int) == boxes@);
    }
    let widths = median_u32(widths);
    let heights = median_u32(heights);
    let xs = median_u32(xs);
    let ys = median_u32(ys);
    Some(BoundingBox { x: xs, y: ys, width: widths, height: heights })
}

/// The ascending order on `u32` is a total order.
proof fn lemma_u32_leq_total()
    ensures
        total_ordering(u32_leq()),
{
}

/// Median of a non-empty list of values.
fn median_u32(values: Vec<u32>) -> (r: u32)
    requires
        values@.len() > 0,
    ensures
        r == median(values@),
{
    let ghost original = values@;
    let mut values = values;
    sort_unstable_u32(&mut values);
    proof {
        lemma_u32_leq_total();
        original.lemma_sort_by_ensures(u32_leq());
        assert(sorted_by(values@, u32_leq()));
        lemma_sorted_unique(values@, sorted_values(original), u32_leq());
    }
    let mid = values.len() / 2;
    if values.len().is_multiple_of(2) {
        u32::midpoint(values[mid - 1], values[mid])
    } else {
        values[mid]
    }
}

/// Center `bbox` on the canvas: its `x`/`y` become canvas coordinates.
fn center_on_canvas(bbox: BoundingBox, canvas: TargetCanvas) -> (r: BoundingBox)
    ensures
        r == center_on_canvas_spec(bbox, canvas),
{
    let x = canvas.width.saturating_sub(bbox.width) / 2;
    let y = canvas.height.saturating_sub(bbox.height) / 2;
    BoundingBox { x, y, width: bbox.width, height: bbox.height }
}

// ---- laws of the reference.

/// Two sequences with the same values have the same median.
pub proof fn lemma_median_permutation(s1: Seq<u32>, s2: Seq<u32>)
    requires
        s1.to_multiset() == s2.to_multiset(),
    ensures
        median(s1) == median(s2),
{
    lemma_u32_leq_total();
    s1.lemma_sort_by_ensures(u32_leq());
    s2.lemma_sort_by_ensures(u32_leq());
    lemma_sorted_unique(sorted_values(s1), sorted_values(s2), u32_leq());
}

/// Mapping a function over two sequences with the same elements gives two
/// sequences with the same elements.
proof fn lemma_map_multiset<A, B>(a: Seq<A>, b: Seq<A>, f: spec_fn(A) -> B)
    requires
        a.to_multiset() == b.to_multiset(),
    ensures
        a.map_values(f).to_multiset() == b.map_values(f).to_multiset(),
    decreases a.len(),
{
    broadcast use vstd::seq_lib::group_to_multiset_ensures;
    broadcast use vstd::multiset::group_multiset_axioms;

    if a.len() == 0 {
        assert(b.to_multiset().len() == 0);
        assert(b.len() == 0);
        assert(a.map_values(f) =~= b.map_values(f));
    } else {
        let x = a.last();
        let a1 = a.drop_last();
        assert(a =~= a1.push(x));
        assert(a.to_multiset().count(x) > 0);
        assert(b.contains(x));
        let i = choose|i: int| 0 <= i < b.len() && b[i] == x;
        let b1 = b.remove(i);
        assert(b1.to_multiset() =~= b.to_multiset().remove(x));
        assert(a1.to_multiset() =~= a.to_multiset().remove(x));
        lemma_map_multiset(a1, b1, f);
        assert(a.map_values(f) =~= a1.map_values(f).push(f(x)));
        assert(b.map_values(f).remove(i) =~= b1.map_values(f));
        assert(b.map_values(f)[i] == f(x));
        assert(b.map_values(f).remove(i).to_multiset() =~= b.map_values(f).to_multiset().remove(f(x)));
        assert(b.map_values(f).to_multiset().count(f(x)) > 0) by {
            assert(b.map_values(f).contains(f(x)));
        }
        assert(b.map_values(f).to_multiset() =~= b.map_values(f).to_multiset().remove(f(x)).insert(f(x)));
    }
}

/// Box `b` occurs in the boxes of parity `p` as often as `(p, b)` occurs
/// among the snapshots.
proof fn lemma_parity_boxes_count(s: Seq<(Parity, BoundingBox)>, p: Parity, b: BoundingBox)
    ensures
        parity_boxes(s, p).to_multiset().count(b) == s.to_multiset().count((p, b)),
    decreases s.len(),
{
    broadcast use vstd::seq_lib::group_to_multiset_ensures;
    broadcast use vstd::multiset::group_multiset_axioms;

    if s.len() == 0 {
        assert(s.to_multiset().len() == 0);
        assert(parity_boxes(s, p).len() == 0);
    } else {
        lemma_parity_boxes_count(s.drop_last(), p, b);
        assert(s =~= s.drop_last().push(s.last()));
    }
}

/// Snapshot multisets that agree give parity-box multisets that agree.
proof fn lemma_parity_boxes_multiset(s1: Seq<(Parity, BoundingBox)>, s2: Seq<(Parity, BoundingBox)>, p: Parity)
    requires
        s1.to_multiset() == s2.to_multiset(),
    ensures
        parity_boxes(s1, p).to_multiset() == parity_boxes(s2, p).to_multiset(),
{
    assert forall|b: BoundingBox| #[trigger] parity_boxes(s1, p).to_multiset().count(b) == parity_boxes(s2, p).to_multiset().count(b) by {
        lemma_parity_boxes_count(s1, p, b);
        lemma_parity_boxes_count(s2, p, b);
    }
    assert(parity_boxes(s1, p).to_multiset() =~= parity_boxes(s2, p).to_multiset());
}

/// Box sequences with the same elements have the same median box.
proof fn lemma_median_box_permutation(b1: Seq<BoundingBox>, b2: Seq<BoundingBox>)
    requires
        b1.to_multiset() == b2.to_multiset(),
    ensures
        median_box(b1) == median_box(b2),
{
    let fx = |b: BoundingBox| b.x;
    let fy = |b: BoundingBox| b.y;
    let fw = |b: BoundingBox| b.width;
    let fh = |b: BoundingBox| b.height;
    lemma_map_multiset(b1, b2, fx);
    lemma_map_multiset(b1, b2, fy);
    lemma_map_multiset(b1, b2, fw);
    lemma_map_multiset(b1, b2, fh);
    lemma_median_permutation(b1.map_values(fx), b2.map_values(fx));
    lemma_median_permutation(b1.map_values(fy), b2.map_values(fy));
    lemma_median_permutation(b1.map_values(fw), b2.map_values(fw));
    lemma_median_permutation(b1.map_values(fh), b2.map_values(fh));
}

/// The reference depends only on which snapshots were taken, not on the
/// order in which they arrive: reordering the pages of a corpus (or the
/// arrival order of the streaming coordinator) leaves it unchanged.
pub proof fn lemma_reference_order_independent(
    s1: Seq<(Parity, BoundingBox)>,
    s2: Seq<(Parity, BoundingBox)>,
    canvas: TargetCanvas,
)
    requires
        s1.to_multiset() == s2.to_multiset(),
    ensures
        reference_of(s1, canvas) == reference_of(s2, canvas),
{
    broadcast use vstd::seq_lib::group_to_multiset_ensures;

    let fb = |e: (Parity, BoundingBox)| e.1;
    lemma_map_multiset(s1, s2, fb);
    assert(all_boxes(s1) == s1.map_values(fb));
    assert(all_boxes(s2) == s2.map_values(fb));
    lemma_median_box_permutation(all_boxes(s1), all_boxes(s2));
    lemma_parity_boxes_multiset(s1, s2, Parity::Recto);
    lemma_parity_boxes_multiset(s1, s2, Parity::Verso);
    assert(parity_boxes(s1, Parity::Recto).len() == parity_boxes(s1, Parity::Recto).to_multiset().len());
    assert(parity_boxes(s2, Parity::Recto).len() == parity_boxes(s2, Parity::Recto).to_multiset().len());
    assert(parity_boxes(s1, Parity::Verso).len() == parity_boxes(s1, Parity::Verso).to_multiset().len());
    assert(parity_boxes(s2, Parity::Verso).len() == parity_boxes(s2, Parity::Verso).to_multiset().len());
    lemma_median_box_permutation(parity_boxes(s1, Parity::Recto), parity_boxes(s2, Parity::Recto));
    lemma_median_box_permutation(parity_boxes(s1, Parity::Verso), parity_boxes(s2, Parity::Verso));
}

/// A value occurs in a sequence at most as often as the sequence is long.
proof fn lemma_count_le_len(x: Seq<u32>, v: u32)
    ensures
        x.to_multiset().count(v) <= x.len(),
    decreases x.len(),
{
    broadcast use vstd::seq_lib::group_to_multiset_ensures;
    broadcast use vstd::multiset::group_multiset_axioms;

    if x.len() == 0 {
        assert(x.to_multiset().len() == 0);
    } else {
        lemma_count_le_len(x.drop_last(), v);
        assert(x =~= x.drop_last().push(x.last()));
    }
}

/// When `v` can only sit at indices `[lo, hi)` of `t`, it occurs at most
/// `hi - lo` times.
proof fn lemma_count_in_window(t: Seq<u32>, lo: int, hi: int, v: u32)
    requires
        0 <= lo <= hi <= t.len(),
        forall|i: int| 0 <= i < t.len() && !(lo <= i < hi) ==> #[trigger] t[i] != v,
    ensures
        t.to_multiset().count(v) <= hi - lo,
{
    broadcast use vstd::seq_lib::group_to_multiset_ensures;
    broadcast use vstd::multiset::group_multiset_axioms;
    broadcast use vstd::seq_lib::lemma_multiset_commutative;

    let a = t.subrange(0, lo);
    let b = t.subrange(lo, hi);
    let c = t.subrange(hi, t.len() as int);
    assert(t =~= a + b + c);
    assert(!a.contains(v));
    assert(!c.contains(v));
    assert((a + b + c).to_multiset() =~= (a + b).to_multiset().add(c.to_multiset()));
    assert((a + b).to_multiset() =~= a.to_multiset().add(b.to_multiset()));
    lemma_count_le_len(b, v);
}

/// A value held by more than half of the entries is the median: a
/// minority of outliers, however extreme, cannot move it.
pub proof fn lemma_median_majority(s: Seq<u32>, v: u32)
    requires
        2 * s.to_multiset().count(v) > s.len(),
    ensures
        median(s) == v,
{
    broadcast use vstd::seq_lib::group_to_multiset_ensures;

    lemma_u32_leq_total();
    s.lemma_sort_by_ensures(u32_leq());
    let t = sorted_values(s);
    let n = t.len() as int;
    assert(t.len() == t.to_multiset().len());
    assert(s.len() == s.to_multiset().len());
    let c = t.to_multiset().count(v);
    lemma_count_le_len(t, v);
    let mid = n / 2;
    assert forall|i: int, j: int| 0 <= i < j < n implies #[trigger] t[i] <= #[trigger] t[j] by {
        assert(sorted_by(t, u32_leq()));
        assert(u32_leq()(t[i], t[j]));
    }
    if t[mid] < v {
        assert forall|i: int| 0 <= i < n && !(mid + 1 <= i < n) implies #[trigger] t[i] != v by {
            if i < mid {
                assert(t[i] <= t[mid]);
            }
        }
        lemma_count_in_window(t, mid + 1, n, v);
    } else if t[mid] > v {
        assert forall|i: int| 0 <= i < n && !(0 <= i < mid) implies #[trigger] t[i] != v by {
            if i > mid {
                assert(t[mid] <= t[i]);
            }
        }
        lemma_count_in_window(t, 0, mid, v);
    }
    if n % 2 == 0 {
        if t[mid - 1] < v {
            assert forall|i: int| 0 <= i < n && !(mid <= i < n) implies #[trigger] t[i] != v by {
                if i < mid - 1 {
                    assert(t[i] <= t[mid - 1]);
                }
            }
            lemma_count_in_window(t, mid, n, v);
        } else if t[mid - 1] > v {
            assert forall|i: int| 0 <= i < n && !(0 <= i < mid - 1) implies #[trigger] t[i] != v by {
                if i > mid - 1 {
                    assert(t[mid - 1] <= t[i]);
                }
            }
            lemma_count_in_window(t, 0, mid - 1, v);
        }
    }
}

/// Mapping keeps at least the occurrences of each element's image.
proof fn lemma_map_count<A, B>(a: Seq<A>, f: spec_fn(A) -> B, x: A)
    ensures
        a.map_values(f).to_multiset().count(f(x)) >= a.to_multiset().count(x),
    decreases a.len(),
{
    broadcast use vstd::seq_lib::group_to_multiset_ensures;
    broadcast use vstd::multiset::group_multiset_axioms;

    if a.len() == 0 {
        assert(a.to_multiset().len() == 0);
    } else {
        let a1 = a.drop_last();
        lemma_map_count(a1, f, x);
        assert(a =~= a1.push(a.last()));
        assert(a.map_values(f) =~= a1.map_values(f).push(f(a.last())));
    }
}

/// When more than half of the pages of a parity share one main-column
/// box, the reference for that parity is that box, centered on the canvas.
pub proof fn lemma_reference_majority(
    s: Seq<(Parity, BoundingBox)>,
    p: Parity,
    b: BoundingBox,
    canvas: TargetCanvas,
)
    requires
        2 * s.to_multiset().count((p, b)) > parity_boxes(s, p).len(),
    ensures
        reference_box(s, p, canvas) == center_on_canvas_spec(b, canvas),
{
    broadcast use vstd::seq_lib::group_to_multiset_ensures;

    let own = parity_boxes(s, p);
    lemma_parity_boxes_count(s, p, b);
    assert(own.to_multiset().count(b) > 0);
    assert(own.len() > 0);
    let fx = |bb: BoundingBox| bb.x;
    let fy = |bb: BoundingBox| bb.y;
    let fw = |bb: BoundingBox| bb.width;
    let fh = |bb: BoundingBox| bb.height;
    lemma_map_count(own, fx, b);
    lemma_map_count(own, fy, b);
    lemma_map_count(own, fw, b);
    lemma_map_count(own, fh, b);
    lemma_median_majority(own.map_values(fx), b.x);
    lemma_median_majority(own.map_values(fy), b.y);
    lemma_median_majority(own.map_values(fw), b.width);
    lemma_median_majority(own.map_values(fh), b.height);
}

} // verus!
