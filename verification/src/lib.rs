//! Hardware page tables for several architectures.
//!
//! The crate builds, queries and edits the tree of translation tables that a
//! memory management unit walks, for x86-64, LoongArch64, RISC-V and AArch64
//! with three or four levels, and for ARMv7-A with two.
//!
//! - [`entry`] encodes and decodes the descriptor words of each
//!   architecture, and holds the permissions that all of them share.
//! - [`handler`] is what a page table asks of its surroundings: frames for
//!   its tables, and access to their words. [`arena`] is a handler that keeps
//!   the frames in ordinary memory.
//! - [`walk64`] walks a tree of three or four levels and edits single pages,
//!   [`region64`] edits ranges, [`visit64`] traverses a whole tree,
//!   [`owned64`] says which tables a tree owns, and [`shared64`] makes the
//!   tables that several trees share. [`bits64`] and [`eqbits64`] are the
//!   page table types on top of them.
//! - [`walk32`], [`region32`], [`owned32`] and [`bits32`] are the same for a
//!   tree of two levels.
//! - [`flush`] records which virtual addresses a batch of edits touched, so
//!   that one commit tells the caller which translations to invalidate, and
//!   [`borrowed`] keeps the slots of a root table that are on loan.
//! - [`arch`] holds the paging metadata of each architecture.
//!
//! Every operation takes the handler as an argument. What an operation does
//! is stated over the frames of the handler, a map from the address of each
//! frame to its words.

use vstd::prelude::*;
use core::marker::PhantomData;

pub mod arch;
pub mod arena;
pub mod bits32;
pub mod bits64;
pub mod borrowed;
pub mod entry;
pub mod eqbits64;
pub mod flush;
pub mod handler;
pub mod owned32;
pub mod owned64;
pub mod region32;
pub mod region64;
pub mod shared64;
pub mod visit64;
pub mod walk32;
pub mod walk64;

pub use arena::FrameArena;
pub use bits32::PageTable32;
pub use bits64::{PageTable64, PageTable64Cursor};
pub use entry::{GenericPTE, MappingFlags};
pub use eqbits64::EqPageTable64Ext;
pub use handler::PagingHandler;

verus! {

/// `memory_addr::align_down` clears the low bits of `addr` that `align - 1`
/// covers. With `align == 0` the subtraction would overflow.
pub assume_specification[ memory_addr::align_down ](addr: usize, align: usize) -> (r: usize)
    requires
        align > 0,
    ensures
        r == addr & !((align - 1) as usize),
;

/// `memory_addr::align_offset` keeps the low bits of `addr` that `align - 1`
/// covers. With `align == 0` the subtraction would overflow.
pub assume_specification[ memory_addr::align_offset ](addr: usize, align: usize) -> (r: usize)
    requires
        align > 0,
    ensures
        r == addr & ((align - 1) as usize),
;

/// `memory_addr::is_aligned` tells whether `memory_addr::align_offset` of the
/// same arguments is zero.
pub assume_specification[ memory_addr::is_aligned ](addr: usize, align: usize) -> (r: bool)
    requires
        align > 0,
    ensures
        r == (addr & ((align - 1) as usize) == 0),
;

/// The error type for page table operation failures.
#[derive(Debug, PartialEq, Eq, Structural, Clone, Copy)]
pub enum PagingError {
    /// Cannot allocate memory.
    NoMemory,
    /// The address is not aligned to the page size.
    NotAligned,
    /// The mapping is not present.
    NotMapped,
    /// The mapping is already present, or a huge page is in the way of a
    /// finer mapping that it would hide.
    AlreadyMapped,
    /// The page table entry represents a huge page, where a pointer to a
    /// table was looked for.
    MappedToHugePage,
}

/// The kinds of error that a paging error stands for in the error codes of
/// the operating system.
#[derive(Debug, PartialEq, Eq, Structural, Clone, Copy)]
pub enum ErrorKind {
    /// Out of memory.
    NoMemory,
    /// Invalid input parameter.
    InvalidInput,
}

impl PagingError {
    /// The kind of error that stands for this one in the error codes of the
    /// operating system: out of memory where memory ran out, and invalid
    /// input for every other error.
    pub fn kind(self) -> (r: ErrorKind)
        ensures
            r == if self == PagingError::NoMemory {
                ErrorKind::NoMemory
            } else {
                ErrorKind::InvalidInput
            },
    {
        match self {
            PagingError::NoMemory => ErrorKind::NoMemory,
            _ => ErrorKind::InvalidInput,
        }
    }
}

/// The specialized `Result` type for page table operations.
pub type PagingResult<T = ()> = Result<T, PagingError>;

/// The page sizes supported by the hardware page table.
#[derive(Debug, Copy, Clone, Eq, PartialEq, Structural)]
pub enum PageSize {
    /// Size of 4 kilobytes (2<sup>12</sup> bytes).
    Size4K,
    /// Size of 1 megabytes (2<sup>20</sup> bytes).
    Size1M,
    /// Size of 2 megabytes (2<sup>21</sup> bytes).
    Size2M,
    /// Size of 1 gigabytes (2<sup>30</sup> bytes).
    Size1G,
}

impl PageSize {
    /// The number of bytes in a page of this size.
    pub open spec fn spec_bytes(self) -> usize {
        match self {
            PageSize::Size4K => 0x1000,
            PageSize::Size1M => 0x10_0000,
            PageSize::Size2M => 0x20_0000,
            PageSize::Size1G => 0x4000_0000,
        }
    }

    /// Whether this page size is larger than 4K.
    pub open spec fn spec_is_huge(self) -> bool {
        self != PageSize::Size4K
    }

    /// The address `addr` rounded down to a multiple of this page size.
    pub open spec fn spec_align_down(self, addr: usize) -> usize {
        (addr - addr % self.spec_bytes()) as usize
    }

    /// Whether this page size is considered huge (larger than 4K).
    pub fn is_huge(self) -> (r: bool)
        ensures
            r == self.spec_is_huge(),
    {
        match self {
            PageSize::Size4K => false,
            _ => true,
        }
    }

    /// Checks whether a given address or size is aligned to the page size.
    pub fn is_aligned(self, addr_or_size: usize) -> (r: bool)
        ensures
            r == (addr_or_size % self.spec_bytes() == 0),
    {
        let bytes: usize = usize::from(self);
        proof {
            lemma_low_bits(addr_or_size, self);
        }
        memory_addr::is_aligned(addr_or_size, bytes)
    }

    /// Returns the offset of the address within the page size.
    pub fn align_offset(self, addr: usize) -> (r: usize)
        ensures
            r == addr % self.spec_bytes(),
    {
        let bytes: usize = usize::from(self);
        proof {
            lemma_low_bits(addr, self);
        }
        memory_addr::align_offset(addr, bytes)
    }

    /// Rounds an address down to a multiple of the page size.
    pub fn align_down(self, addr: usize) -> (r: usize)
        ensures
            r == self.spec_align_down(addr),
            r <= addr,
            r % self.spec_bytes() == 0,
    {
        let bytes: usize = usize::from(self);
        proof {
            lemma_low_bits(addr, self);
        }
        memory_addr::align_down(addr, bytes)
    }
}

/// What the masks of the alignment functions keep and clear, for each page
/// size, in terms of the remainder.
pub proof fn lemma_low_bits(addr: usize, size: PageSize)
    ensures
        addr & ((size.spec_bytes() - 1) as usize) == addr % size.spec_bytes(),
        addr & !((size.spec_bytes() - 1) as usize) == addr - addr % size.spec_bytes(),
        (addr - addr % size.spec_bytes()) % (size.spec_bytes() as int) == 0,
{
    assert(addr & 0xfffusize == addr % 0x1000usize && addr & !0xfffusize == addr - addr
        % 0x1000usize && (addr - addr % 0x1000usize) % 0x1000 == 0) by (bit_vector);
    assert(addr & 0xf_ffffusize == addr % 0x10_0000usize && addr & !0xf_ffffusize == addr - addr
        % 0x10_0000usize && (addr - addr % 0x10_0000usize) % 0x10_0000 == 0) by (bit_vector);
    assert(addr & 0x1f_ffffusize == addr % 0x20_0000usize && addr & !0x1f_ffffusize == addr - addr
        % 0x20_0000usize && (addr - addr % 0x20_0000usize) % 0x20_0000 == 0) by (bit_vector);
    assert(addr & 0x3fff_ffffusize == addr % 0x4000_0000usize && addr & !0x3fff_ffffusize == addr
        - addr % 0x4000_0000usize && (addr - addr % 0x4000_0000usize) % 0x4000_0000 == 0)
        by (bit_vector);
}

/// The **architecture-dependent** metadata that must be provided for a page
/// table.
pub trait PagingMetaData {
    /// The number of levels of the hardware page table.
    spec fn spec_levels() -> usize;

    /// The maximum number of bits of physical address.
    spec fn spec_pa_max_bits() -> usize;

    /// The maximum number of bits of virtual address.
    spec fn spec_va_max_bits() -> usize;

    /// Whether a given virtual address is valid.
    spec fn spec_vaddr_is_valid(vaddr: usize) -> bool;

    /// The number of levels of the hardware page table.
    fn levels() -> (r: usize)
        ensures
            r == Self::spec_levels(),
    ;

    /// The maximum number of bits of physical address.
    fn pa_max_bits() -> (r: usize)
        ensures
            r == Self::spec_pa_max_bits(),
            1 <= r <= 64,
    ;

    /// The maximum number of bits of virtual address.
    fn va_max_bits() -> (r: usize)
        ensures
            r == Self::spec_va_max_bits(),
            1 <= r <= 64,
    ;

    /// Whether a given physical address is valid: whether it needs no more
    /// bits than the architecture has.
    fn paddr_is_valid(paddr: usize) -> (r: bool)
        ensures
            r == (paddr as u64 <= spec_low_mask(Self::spec_pa_max_bits())),
    ;

    /// Whether a given virtual address is valid.
    fn vaddr_is_valid(vaddr: usize) -> (r: bool)
        ensures
            r == Self::spec_vaddr_is_valid(vaddr),
    ;
}

/// This type indicates the mapping of a virtual address has been changed.
///
/// The caller can call [`TlbFlush::flush`] to learn which TLB entry has to be
/// flushed, or call [`TlbFlush::ignore`] if it knowns the TLB will be flushed
/// later.
#[must_use]
pub struct TlbFlush<M: PagingMetaData> {
    vaddr: usize,
    _phantom: PhantomData<M>,
}

impl<M: PagingMetaData> TlbFlush<M> {
    /// The virtual address whose mapping changed.
    pub closed spec fn spec_vaddr(&self) -> usize {
        self.vaddr
    }

    /// A token for the change of the mapping of `vaddr`.
    pub fn new(vaddr: usize) -> (r: Self)
        ensures
            r.spec_vaddr() == vaddr,
    {
        TlbFlush { vaddr, _phantom: PhantomData }
    }

    /// Don't flush the TLB and silence the "must be used" warning.
    pub fn ignore(self) {
    }

    /// Gives the request to hand to the flush of the architecture, so that
    /// the mapping change takes effect: the virtual address of the token.
    pub fn flush(self) -> (r: Option<usize>)
        ensures
            r == Some(self.spec_vaddr()),
    {
        Some(self.vaddr)
    }
}

/// This type indicates the page table mappings have been changed.
///
/// The caller can call [`TlbFlushAll::flush_all`] to learn that the entire
/// TLB has to be flushed, or call [`TlbFlushAll::ignore`] if it knowns the
/// TLB will be flushed later.
#[must_use]
pub struct TlbFlushAll<M: PagingMetaData> {
    _phantom: PhantomData<M>,
}

impl<M: PagingMetaData> TlbFlushAll<M> {
    /// A token for a change of many mappings.
    pub fn new() -> (r: Self) {
        TlbFlushAll { _phantom: PhantomData }
    }

    /// Don't flush the TLB and silence the "must be used" warning.
    pub fn ignore(self) {
    }

    /// Gives the request to hand to the flush of the architecture: `None`,
    /// which stands for the entire TLB.
    pub fn flush_all(self) -> (r: Option<usize>)
        ensures
            r is None,
    {
        None
    }
}

/// The word whose low `bits` bits are set and no others.
pub open spec fn spec_low_mask(bits: usize) -> u64 {
    if bits >= 64 {
        u64::MAX
    } else {
        (((1u64 << (bits as u64)) - 1) as u64)
    }
}

/// The greatest address of `bits` bits.
pub fn low_mask(bits: usize) -> (r: u64)
    ensures
        r == spec_low_mask(bits),
{
    if bits >= 64 {
        u64::MAX
    } else {
        let b: u64 = bits as u64;
        assert(b < 64 ==> (1u64 << b) >= 1) by (bit_vector);
        (1u64 << b) - 1
    }
}

/// Whether the bits of `vaddr` from bit `bits - 1` upwards are all zero or
/// all one: whether `vaddr` is the sign extension of its low `bits` bits.
pub open spec fn spec_sign_extended(bits: usize, vaddr: usize) -> bool {
    let top_mask: u64 = u64::MAX << ((bits - 1) as u64);
    (vaddr as u64) & top_mask == 0 || (vaddr as u64) & top_mask == top_mask
}

/// The rule for valid virtual addresses that an architecture has unless it
/// states another: the top bits are sign extended.
pub fn sign_extended(bits: usize, vaddr: usize) -> (r: bool)
    requires
        1 <= bits <= 64,
    ensures
        r == spec_sign_extended(bits, vaddr),
{
    let shift: u64 = (bits - 1) as u64;
    let top_mask: u64 = u64::MAX << shift;
    (vaddr as u64) & top_mask == 0 || (vaddr as u64) & top_mask == top_mask
}

/// The start of a page and an offset in a page of the same size add up to
/// no more than the greatest address.
pub proof fn lemma_page_fits(addr: usize, vaddr: usize, size: PageSize)
    ensures
        size.spec_align_down(addr) + vaddr % size.spec_bytes() <= usize::MAX,
{
    assert(usize::MAX as int == 0xffff_ffff || usize::MAX as int == 0xffff_ffff_ffff_ffff);
    lemma_low_bits(addr, size);
    let base = size.spec_align_down(addr) as int;
    let bytes = size.spec_bytes() as int;
    assert((usize::MAX + 1) % bytes == 0);
    assert(base % bytes == 0);
    assert(base + bytes <= usize::MAX + 1) by {
        if base + bytes > usize::MAX + 1 {
            assert((usize::MAX + 1 - base) % bytes == 0);
            assert(0 < usize::MAX + 1 - base < bytes);
        }
    }
}

impl From<PageSize> for usize {
    fn from(size: PageSize) -> (r: usize) {
        match size {
            PageSize::Size4K => 0x1000,
            PageSize::Size1M => 0x10_0000,
            PageSize::Size2M => 0x20_0000,
            PageSize::Size1G => 0x4000_0000,
        }
    }
}

impl vstd::std_specs::convert::FromSpecImpl<PageSize> for usize {
    open spec fn obeys_from_spec() -> bool {
        true
    }

    open spec fn from_spec(size: PageSize) -> usize {
        size.spec_bytes()
    }
}

} // verus!
