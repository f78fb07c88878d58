//! Paper-size canvas: a fixed pixel target every page is registered onto.

use vstd::prelude::*;

verus! {

/// ISO / JIS paper standards supported as a registration target.
#[derive(Debug, Clone, Copy, PartialEq, Eq, Structural)]
#[non_exhaustive]
pub enum Paper {
    /// ISO B5: 182 x 257 mm.
    B5,
}

/// Millimetres `mm` at `dpi` dots per inch, rounded to the nearest pixel
/// (`mm * dpi / 25.4`, no value lies exactly half-way) and saturated at
/// `u32::MAX`.
pub open spec fn px_of_mm(mm: nat, dpi: nat) -> nat {
    let px = (20 * mm * dpi + 254) / 508;
    if px > u32::MAX {
        u32::MAX as nat
    } else {
        px
    }
}

impl Paper {
    /// Portrait `(width, height)` in millimetres.
    pub open spec fn mm(self) -> (nat, nat) {
        match self {
            Paper::B5 => (182, 257),
        }
    }

    /// Build a pixel-space canvas description at the given DPI.
    pub fn canvas_at_dpi(self, dpi: u32) -> (r: TargetCanvas)
        ensures
            r.width == px_of_mm(self.mm().0, dpi as nat),
            r.height == px_of_mm(self.mm().1, dpi as nat),
            r.dpi == dpi,
    {
        let (w_mm, h_mm): (u32, u32) = match self {
            Paper::B5 => (182, 257),
        };
        TargetCanvas::from_mm(w_mm, h_mm, dpi)
    }
}

/// The pixel-space canvas every page is registered onto, plus the DPI it was
/// derived from.
#[derive(Debug, Clone, Copy, PartialEq, Eq, Structural)]
pub struct TargetCanvas {
    /// Canvas width in pixels.
    pub width: u32,
    /// Canvas height in pixels.
    pub height: u32,
    /// Dots-per-inch used to convert physical mm to pixels.
    pub dpi: u32,
}

/// `mm` millimetres at `dpi`, in pixels.
fn px_from_mm(mm: u32, dpi: u32) -> (r: u32)
    requires
        mm <= 1000,
    ensures
        r == px_of_mm(mm as nat, dpi as nat),
{
    assert(20 * (mm as u64) * (dpi as u64) <= 20 * 1000 * 0xffff_ffff) by (nonlinear_arith)
        requires
            mm <= 1000,
            dpi <= 0xffff_ffffu32,
    ;
    let px: u64 = (20 * (mm as u64) * (dpi as u64) + 254) / 508;
    if px > 0xffff_ffff {
        u32::MAX
    } else {
        px as u32
    }
}

impl TargetCanvas {
    /// The canvas for a `width_mm x height_mm` sheet at `dpi`.
    pub(crate) fn from_mm(width_mm: u32, height_mm: u32, dpi: u32) -> (r: Self)
        requires
            width_mm <= 1000,
            height_mm <= 1000,
        ensures
            r.width == px_of_mm(width_mm as nat, dpi as nat),
            r.height == px_of_mm(height_mm as nat, dpi as nat),
            r.dpi == dpi,
    {
        Self { width: px_from_mm(width_mm, dpi), height: px_from_mm(height_mm, dpi), dpi }
    }
}

} // verus!
