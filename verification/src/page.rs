//! Page types, one per pipeline stage.
//!
//! Each stage is its own type, so the only way to produce a
//! [`RegisteredPage`] is to walk the pipeline and the only way to render is
//! with an [`AlignmentPlan`].

use std::path::PathBuf;

use vstd::prelude::*;

use crate::bitplane::{BitPage, BitPageView};

verus! {

/// What a [`RawPage`] holds.
pub struct RawPageView {
    pub bits: BitPageView,
    pub source: PathBuf,
    pub index: nat,
}

/// A page that has just been loaded. The bits stay in their native 1-bit
/// packing.
#[derive(Debug, Clone)]
pub struct RawPage {
    pub(crate) bits: BitPage,
    pub(crate) source: PathBuf,
    pub(crate) index: usize,
}

impl View for RawPage {
    type V = RawPageView;

    closed spec fn view(&self) -> RawPageView {
        RawPageView { bits: self.bits@, source: self.source, index: self.index as nat }
    }
}

impl RawPage {
    /// The page's bits are well formed.
    pub open spec fn wf(&self) -> bool {
        self@.bits.wf()
    }

    /// Construct a [`RawPage`] from an already-validated bitonal buffer.
    /// `index` is the page's position in the corpus walk order.
    pub fn from_validated(bits: BitPage, source: PathBuf, index: usize) -> (r: Self)
        ensures
            r@.bits == bits@,
            r@.source == source,
            r@.index == index,
    {
        Self { bits, source, index }
    }

    /// Source path the page was loaded from.
    pub fn source(&self) -> (r: &PathBuf)
        ensures
            *r == self@.source,
    {
        &self.source
    }

    /// Corpus-order index, starting at 0.
    pub fn index(&self) -> (r: usize)
        ensures
            r == self@.index,
    {
        self.index
    }

    /// Pixel dimensions of the loaded page.
    pub fn dimensions(&self) -> (r: (u32, u32))
        ensures
            r.0 == self@.bits.width,
            r.1 == self@.bits.height,
    {
        (self.bits.width(), self.bits.height())
    }

    /// Borrow the underlying bit-packed buffer.
    pub fn bits(&self) -> (r: &BitPage)
        ensures
            r@ == self@.bits,
    {
        &self.bits
    }
}

/// What an [`AnalyzedPage`] holds.
pub struct AnalyzedPageView {
    pub raw: RawPageView,
    pub layout: PageLayout,
    pub parity: Parity,
}

/// A page whose main text column has been located and whose parity has been
/// determined.
#[derive(Debug, Clone)]
pub struct AnalyzedPage {
    pub(crate) raw: RawPage,
    pub(crate) layout: PageLayout,
    pub(crate) parity: Parity,
}

impl View for AnalyzedPage {
    type V = AnalyzedPageView;

    closed spec fn view(&self) -> AnalyzedPageView {
        AnalyzedPageView { raw: self.raw@, layout: self.layout, parity: self.parity }
    }
}

impl AnalyzedPage {
    /// Borrow the raw page this analysis was derived from.
    pub fn raw(&self) -> (r: &RawPage)
        ensures
            r@ == self@.raw,
    {
        &self.raw
    }

    /// Detected layout.
    pub fn layout(&self) -> (r: &PageLayout)
        ensures
            *r == self@.layout,
    {
        &self.layout
    }

    /// Page parity: which side of the spread this page sits on.
    pub fn parity(&self) -> (r: Parity)
        ensures
            r == self@.parity,
    {
        self.parity
    }

    /// Give back the raw page.
    pub(crate) fn into_raw(self) -> (r: RawPage)
        ensures
            r@ == self@.raw,
    {
        self.raw
    }
}

/// Plan for moving one page onto the reference canvas.
#[derive(Debug, Clone)]
pub enum AlignmentPlan {
    /// The page's main column was detected.
    Aligned {
        /// The analyzed page being aligned.
        analyzed: AnalyzedPage,
        /// What geometric transform takes the source to the canvas.
        kind: AlignmentKind,
    },
    /// Column detection failed or the page is an outlier: the page is
    /// centered on the canvas as-is.
    Passthrough {
        /// The raw page being passed through.
        raw: RawPage,
    },
}

impl AlignmentPlan {
    /// The raw page this plan moves.
    pub open spec fn raw_view(&self) -> RawPageView {
        match self {
            AlignmentPlan::Aligned { analyzed, .. } => analyzed@.raw,
            AlignmentPlan::Passthrough { raw } => raw@,
        }
    }

    /// The source path of the page this plan applies to.
    pub fn source(&self) -> (r: &PathBuf)
        ensures
            *r == self.raw_view().source,
    {
        match self {
            AlignmentPlan::Aligned { analyzed, .. } => analyzed.raw.source(),
            AlignmentPlan::Passthrough { raw } => raw.source(),
        }
    }
}

/// Specialization of the per-page transform.
#[derive(Debug, Clone, Copy)]
pub enum AlignmentKind {
    /// Pure integer translation by `(dx, dy)` pixels. Lossless.
    Translate {
        /// X translation in pixels (positive = right).
        dx: i32,
        /// Y translation in pixels (positive = down).
        dy: i32,
    },
    /// General projective transform, applied by a nearest-neighbour warp and
    /// re-binarisation.
    Affine(imageproc::geometric_transformations::Projection),
}

/// What a [`RegisteredPage`] holds.
pub struct RegisteredPageView {
    pub bits: BitPageView,
    pub source: PathBuf,
}

/// A page rendered onto the fixed paper-size canvas.
#[derive(Debug, Clone)]
pub struct RegisteredPage {
    pub(crate) bits: BitPage,
    pub(crate) source: PathBuf,
}

impl View for RegisteredPage {
    type V = RegisteredPageView;

    closed spec fn view(&self) -> RegisteredPageView {
        RegisteredPageView { bits: self.bits@, source: self.source }
    }
}

impl RegisteredPage {
    /// A registered page holding `bits`, rendered from `source`.
    pub(crate) fn from_parts(bits: BitPage, source: PathBuf) -> (r: Self)
        ensures
            r@.bits == bits@,
            r@.source == source,
    {
        Self { bits, source }
    }

    /// Source path the page came from.
    pub fn source(&self) -> (r: &PathBuf)
        ensures
            *r == self@.source,
    {
        &self.source
    }

    /// The final bit-packed buffer to write out.
    pub fn bits(&self) -> (r: &BitPage)
        ensures
            r@ == self@.bits,
    {
        &self.bits
    }
}

/// Which side of a two-page spread a page lies on.
#[derive(Debug, Clone, Copy, PartialEq, Eq, Structural)]
pub enum Parity {
    /// Right-hand page in a right-to-left bound book: even corpus index.
    Recto,
    /// Left-hand page: odd corpus index.
    Verso,
}

impl Parity {
    /// The parity of the page at zero-based corpus position `index`.
    pub open spec fn of_index(index: int) -> Parity {
        if index % 2 == 0 {
            Parity::Recto
        } else {
            Parity::Verso
        }
    }

    /// Derive parity from a zero-based corpus index, the first page being
    /// the leading recto.
    pub fn from_index(index: usize) -> (r: Self)
        ensures
            r == Self::of_index(index as int),
    {
        if index.is_multiple_of(2) {
            Self::Recto
        } else {
            Self::Verso
        }
    }
}

/// What [`crate::analyze::analyze`] extracts from a page.
#[derive(Debug, Clone)]
pub struct PageLayout {
    /// The bounding box of the main text column.
    pub main_column: BoundingBox,
    /// Ancillary marks outside the main column.
    pub pillars: Vec<BoundingBox>,
}

/// An axis-aligned pixel-space bounding box: `x`/`y` are the inclusive
/// top-left coordinates.
#[derive(Debug, Clone, Copy, PartialEq, Eq, Structural)]
pub struct BoundingBox {
    /// Left edge in pixels.
    pub x: u32,
    /// Top edge in pixels.
    pub y: u32,
    /// Box width in pixels.
    pub width: u32,
    /// Box height in pixels.
    pub height: u32,
}

/// Lift a raw page, its detected layout and its parity into an
/// [`AnalyzedPage`].
pub fn into_analyzed(raw: RawPage, layout: PageLayout, parity: Parity) -> (r: AnalyzedPage)
    ensures
        r@.raw == raw@,
        r@.layout == layout,
        r@.parity == parity,
{
    AnalyzedPage { raw, layout, parity }
}

} // verus!
