//! RISC-V specific page table structures.

use vstd::prelude::*;
use core::marker::PhantomData;
use crate::{low_mask, sign_extended, spec_low_mask, spec_sign_extended, PagingMetaData};

verus! {

/// A virtual address that can be used in RISC-V Sv39 and Sv48 page tables:
/// a value that stands for a machine word and can be had back from it.
pub trait SvVirtAddr: Sized + Copy {
    /// The machine word that the address stands for.
    spec fn spec_to_usize(self) -> usize;

    /// The address that stands for `addr`.
    fn from_usize(addr: usize) -> (r: Self)
        ensures
            r.spec_to_usize() == addr,
    ;

    /// The machine word that the address stands for.
    fn to_usize(self) -> (r: usize)
        ensures
            r == self.spec_to_usize(),
    ;
}

impl SvVirtAddr for usize {
    open spec fn spec_to_usize(self) -> usize {
        self
    }

    fn from_usize(addr: usize) -> (r: usize) {
        addr
    }

    fn to_usize(self) -> (r: usize) {
        self
    }
}

/// Metadata of RISC-V Sv39 page tables.
pub struct Sv39MetaData<VA: SvVirtAddr> {
    _virt_addr: PhantomData<VA>,
}

/// Metadata of RISC-V Sv48 page tables.
pub struct Sv48MetaData<VA: SvVirtAddr> {
    _virt_addr: PhantomData<VA>,
}

impl<VA: SvVirtAddr> PagingMetaData for Sv39MetaData<VA> {
    open spec fn spec_levels() -> usize {
        3
    }

    open spec fn spec_pa_max_bits() -> usize {
        56
    }

    open spec fn spec_va_max_bits() -> usize {
        39
    }

    open spec fn spec_vaddr_is_valid(vaddr: usize) -> bool {
        spec_sign_extended(39, vaddr)
    }

    fn levels() -> (r: usize) {
        3
    }

    fn pa_max_bits() -> (r: usize) {
        56
    }

    fn va_max_bits() -> (r: usize) {
        39
    }

    fn paddr_is_valid(paddr: usize) -> (r: bool) {
        paddr as u64 <= low_mask(56)
    }

    fn vaddr_is_valid(vaddr: usize) -> (r: bool) {
        sign_extended(39, vaddr)
    }
}

impl<VA: SvVirtAddr> PagingMetaData for Sv48MetaData<VA> {
    open spec fn spec_levels() -> usize {
        4
    }

    open spec fn spec_pa_max_bits() -> usize {
        56
    }

    open spec fn spec_va_max_bits() -> usize {
        48
    }

    open spec fn spec_vaddr_is_valid(vaddr: usize) -> bool {
        spec_sign_extended(48, vaddr)
    }

    fn levels() -> (r: usize) {
        4
    }

    fn pa_max_bits() -> (r: usize) {
        56
    }

    fn va_max_bits() -> (r: usize) {
        48
    }

    fn paddr_is_valid(paddr: usize) -> (r: bool) {
        paddr as u64 <= low_mask(56)
    }

    fn vaddr_is_valid(vaddr: usize) -> (r: bool) {
        sign_extended(48, vaddr)
    }
}

} // verus!
