//! AArch64 specific page table structures.

use vstd::prelude::*;
use crate::{low_mask, spec_low_mask, PagingMetaData};

verus! {

/// Metadata of AArch64 page tables.
pub struct A64PagingMetaData;

impl PagingMetaData for A64PagingMetaData {
    open spec fn spec_levels() -> usize {
        4
    }

    open spec fn spec_pa_max_bits() -> usize {
        48
    }

    open spec fn spec_va_max_bits() -> usize {
        48
    }

    /// The bits from bit 48 upwards are all zero or all one.
    open spec fn spec_vaddr_is_valid(vaddr: usize) -> bool {
        (vaddr as u64) >> 48 == 0 || (vaddr as u64) >> 48 == 0xffff
    }

    fn levels() -> (r: usize) {
        4
    }

    fn pa_max_bits() -> (r: usize) {
        48
    }

    fn va_max_bits() -> (r: usize) {
        48
    }

    fn paddr_is_valid(paddr: usize) -> (r: bool) {
        paddr as u64 <= low_mask(48)
    }

    fn vaddr_is_valid(vaddr: usize) -> (r: bool) {
        let top_bits: u64 = (vaddr as u64) >> 48;
        top_bits == 0 || top_bits == 0xffff
    }
}

} // verus!
