//! Helpers for tests and benchmarks that bypass file I/O.

use std::path::PathBuf;

use vstd::prelude::*;

use crate::bitplane::BitPage;
use crate::page::RawPage;

verus! {

/// Build a [`RawPage`] from a [`BitPage`] without going through file I/O.
pub fn raw_from_bits(bits: BitPage, source: PathBuf, index: usize) -> (r: RawPage)
    ensures
        r@.bits == bits@,
        r@.source == source,
        r@.index == index,
{
    RawPage::from_validated(bits, source, index)
}

} // verus!
