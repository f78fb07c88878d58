//! Error type produced by the library.

use std::path::PathBuf;

use vstd::prelude::*;

verus! {

/// Errors that can occur while loading, analyzing, or rendering a page.
#[derive(Debug)]
#[non_exhaustive]
pub enum RegisterError {
    /// I/O failure while reading or writing a page image.
    Io {
        /// The path being read or written when the error occurred.
        path: PathBuf,
        /// The underlying I/O error.
        source: std::io::Error,
    },
    /// Error returned by the `image` crate while decoding or encoding.
    Image {
        /// The path being read or written when the error occurred.
        path: PathBuf,
        /// The underlying error from the `image` crate.
        source: image::ImageError,
    },
    /// The input page is not a 1-bit bitonal image: the library refuses to
    /// binarise silently.
    NotBitonal {
        /// The path that contains the non-bitonal image.
        path: PathBuf,
    },
    /// The corpus produced no analyzable pages, so a reference layout cannot
    /// be derived.
    EmptyCorpus,
}

} // verus!
