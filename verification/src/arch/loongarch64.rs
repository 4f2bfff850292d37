//! LoongArch64 specific page table structures.

use vstd::prelude::*;
use crate::{low_mask, sign_extended, spec_low_mask, spec_sign_extended, PagingMetaData};

verus! {

/// Metadata of LoongArch64 page tables.
#[derive(Copy, Clone, Debug)]
pub struct LA64MetaData;

/// PWCL (Page Walk Controller for Lower Half Address Space) CSR flags.
///
/// | BitRange | Name      | Value |
/// | ----     | ----      | ----  |
/// | 4:0      | PTBase    |    12 |
/// | 9:5      | PTWidth   |     9 |
/// | 14:10    | Dir1Base  |    21 |
/// | 19:15    | Dir1Width |     9 |
/// | 24:20    | Dir2Base  |    30 |
/// | 29:25    | Dir2Width |     9 |
/// | 31:30    | PTEWidth  |     0 |
pub const PWCL_VALUE: u32 = 12 | (9 << 5) | (21 << 10) | (9 << 15) | (30 << 20) | (9 << 25);

/// PWCH (Page Walk Controller for Higher Half Address Space) CSR flags.
///
/// | BitRange | Name      | Value |
/// | ----     | ----      | ----  |
/// | 5:0      | Dir3Base  |    39 |
/// | 11:6     | Dir3Width |     9 |
/// | 17:12    | Dir4Base  |     0 |
/// | 23:18    | Dir4Width |     0 |
/// | 31:24    | 0         |     0 |
pub const PWCH_VALUE: u32 = 39 | (9 << 6);

impl PagingMetaData for LA64MetaData {
    open spec fn spec_levels() -> usize {
        4
    }

    open spec fn spec_pa_max_bits() -> usize {
        48
    }

    open spec fn spec_va_max_bits() -> usize {
        48
    }

    open spec fn spec_vaddr_is_valid(vaddr: usize) -> bool {
        spec_sign_extended(48, vaddr)
    }

    fn levels() -> (r: usize) {
        4
    }

    fn pa_max_bits() -> (r: usize) {
        48
    }

    fn va_max_bits() -> (r: usize) {
        48
    }

    fn paddr_is_valid(paddr: usize) -> (r: bool) {
        paddr as u64 <= low_mask(48)
    }

    fn vaddr_is_valid(vaddr: usize) -> (r: bool) {
        sign_extended(48, vaddr)
    }
}

} // verus!
