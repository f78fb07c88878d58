//! Core registration primitives: align bitonal scans of novel pages onto a
//! fixed paper-size canvas.
//!
//! ```text
//!   RawPage --analyze--> AnalyzedPage --plan--> AlignmentPlan --render--> RegisteredPage
//! ```
//!
//! - [`analyze::analyze`] locates the main text column (the tightest box
//!   around the ink) and the page's parity, on the packed 1-bit data.
//! - [`reference::derive_reference`] takes the per-parity median box over
//!   the corpus and centers it on the canvas.
//! - [`plan::plan_alignment`] turns the offset between a page's top-right
//!   anchor and the reference's into a byte-aligned translation, or passes
//!   outliers through.
//! - [`raster::render`] copies the page onto the canvas; only the affine
//!   path resamples.
//! - [`pbm`] is the P4 codec and the bitonal checks of the loader, and
//!   [`coordinator`] the decisions of the streaming reference broadcast.
//!
//! File and directory I/O, threads and the command line live outside this
//! library.

mod foreign;

pub mod analyze;
pub mod bitplane;
pub mod codec;
pub mod coordinator;
pub mod error;
pub mod page;
pub mod paper;
pub mod pbm;
pub mod plan;
pub mod raster;
pub mod reference;
pub mod test_only;

pub use crate::analyze::analyze;
pub use crate::bitplane::BitPage;
pub use crate::error::RegisterError;
pub use crate::page::{
    AlignmentKind, AlignmentPlan, AnalyzedPage, BoundingBox, PageLayout, Parity, RawPage,
    RegisteredPage,
};
pub use crate::paper::{Paper, TargetCanvas};
pub use crate::plan::{plan_alignment, plan_passthrough, PlanOptions};
pub use crate::raster::{render, render_into, CanvasBuf};
pub use crate::reference::{derive_reference, derive_reference_from_snapshots, ReferenceLayout};
