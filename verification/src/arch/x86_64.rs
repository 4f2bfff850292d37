//! x86 specific page table structures.

use vstd::prelude::*;
use crate::{low_mask, sign_extended, spec_low_mask, spec_sign_extended, PagingMetaData};
use crate::bits64::{PageTable64, PageTable64Cursor};
use crate::entry::x86_64::X64PTE;

verus! {

/// metadata of x86_64 page tables.
pub struct X64PagingMetaData;

impl PagingMetaData for X64PagingMetaData {
    open spec fn spec_levels() -> usize {
        4
    }

    open spec fn spec_pa_max_bits() -> usize {
        52
    }

    open spec fn spec_va_max_bits() -> usize {
        48
    }

    open spec fn spec_vaddr_is_valid(vaddr: usize) -> bool {
        spec_sign_extended(48, vaddr)
    }

    fn levels() -> (r: usize) {
        4
    }

    fn pa_max_bits() -> (r: usize) {
        52
    }

    fn va_max_bits() -> (r: usize) {
        48
    }

    fn paddr_is_valid(paddr: usize) -> (r: bool) {
        paddr as u64 <= low_mask(52)
    }

    fn vaddr_is_valid(vaddr: usize) -> (r: bool) {
        sign_extended(48, vaddr)
    }
}

/// x86_64 page table.
pub type X64PageTable<H> = PageTable64<X64PagingMetaData, X64PTE, H>;

/// A cursor that edits an x86_64 page table.
pub type X64PageTableMut<H> = PageTable64Cursor<X64PagingMetaData, X64PTE, H>;

} // verus!
