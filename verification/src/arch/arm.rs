//! ARMv7-A specific page table structures.

use vstd::prelude::*;
use crate::{low_mask, spec_low_mask, PagingMetaData};

verus! {

/// Metadata of ARMv7-A page tables.
pub struct A32PagingMetaData;

impl PagingMetaData for A32PagingMetaData {
    /// ARMv7-A uses 2-level page tables.
    open spec fn spec_levels() -> usize {
        2
    }

    open spec fn spec_pa_max_bits() -> usize {
        32
    }

    open spec fn spec_va_max_bits() -> usize {
        32
    }

    /// All 32-bit addresses are valid.
    open spec fn spec_vaddr_is_valid(vaddr: usize) -> bool {
        vaddr <= 0xffff_ffff
    }

    fn levels() -> (r: usize) {
        2
    }

    fn pa_max_bits() -> (r: usize) {
        32
    }

    fn va_max_bits() -> (r: usize) {
        32
    }

    fn paddr_is_valid(paddr: usize) -> (r: bool) {
        paddr as u64 <= low_mask(32)
    }

    fn vaddr_is_valid(vaddr: usize) -> (r: bool) {
        vaddr <= 0xffff_ffff
    }
}

} // verus!
