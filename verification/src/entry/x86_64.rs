//! x86 page table entries on 64-bit paging.

use vstd::prelude::*;
use crate::entry::{GenericPTE, MappingFlags};
use crate::entry::{READ_BIT, WRITE_BIT, EXECUTE_BIT, USER_BIT, DEVICE_BIT, UNCACHED_BIT};

verus! {

/// Specifies whether the mapped frame or page table is loaded in memory.
pub const PRESENT: u64 = 1;

/// Controls whether writes to the mapped frames are allowed.
pub const WRITABLE: u64 = 1 << 1;

/// Controls whether accesses from userspace (i.e. ring 3) are permitted.
pub const USER_ACCESSIBLE: u64 = 1 << 2;

/// If this bit is set, a write-through policy is used for the cache, else a
/// write-back policy is used.
pub const WRITE_THROUGH: u64 = 1 << 3;

/// Disables caching for the pointed entry.
pub const NO_CACHE: u64 = 1 << 4;

/// Set by the CPU when the mapped frame or page table is accessed.
pub const ACCESSED: u64 = 1 << 5;

/// Set by the CPU on a write to the mapped frame.
pub const DIRTY: u64 = 1 << 6;

/// Specifies that the entry maps a huge frame instead of a page table.
pub const HUGE_PAGE: u64 = 1 << 7;

/// Indicates that the mapping is present in all address spaces.
pub const GLOBAL: u64 = 1 << 8;

/// Forbid code execution from the mapped frames.
pub const NO_EXECUTE: u64 = 1 << 63;

/// Every bit of a descriptor that is a flag: all but the address field.
pub const FLAG_BITS: u64 = 0xfff0_0000_0000_0fff;

/// The address field of a descriptor, bits 12..52.
pub const PHYS_ADDR_MASK: u64 = 0x000f_ffff_ffff_f000;

/// Possible flags for a page table entry.
#[derive(Clone, Copy, PartialEq, Eq, Structural, Debug)]
pub struct PTF {
    /// The raw bits.
    pub bits: u64,
}

/// The permissions that the flag bits `f` of a descriptor grant.
pub open spec fn mapping_bits_of(f: u64) -> usize {
    if f & PRESENT != PRESENT {
        0
    } else {
        let r0: usize = READ_BIT;
        let r1: usize = if f & WRITABLE == WRITABLE { r0 | WRITE_BIT } else { r0 };
        let r2: usize = if f & NO_EXECUTE != NO_EXECUTE { r1 | EXECUTE_BIT } else { r1 };
        let r3: usize = if f & USER_ACCESSIBLE == USER_ACCESSIBLE { r2 | USER_BIT } else { r2 };
        let r4: usize = if f & NO_CACHE == NO_CACHE { r3 | UNCACHED_BIT } else { r3 };
        r4
    }
}

/// The flag bits that stand for the permissions `m`.
pub open spec fn flag_bits_of(m: usize) -> u64 {
    if m == 0 {
        0
    } else {
        let r0: u64 = PRESENT;
        let r1: u64 = if m & WRITE_BIT == WRITE_BIT { r0 | WRITABLE } else { r0 };
        let r2: u64 = if m & EXECUTE_BIT != EXECUTE_BIT { r1 | NO_EXECUTE } else { r1 };
        let r3: u64 = if m & USER_BIT == USER_BIT { r2 | USER_ACCESSIBLE } else { r2 };
        let r4: u64 = if m & DEVICE_BIT == DEVICE_BIT || m & UNCACHED_BIT == UNCACHED_BIT {
            r3 | (NO_CACHE | WRITE_THROUGH)
        } else {
            r3
        };
        r4
    }
}

/// The flag bits of a page descriptor with permissions `m`.
pub open spec fn page_flag_bits(m: usize, is_huge: bool) -> u64 {
    if is_huge {
        flag_bits_of(m) | HUGE_PAGE
    } else {
        flag_bits_of(m)
    }
}

impl PTF {
    /// No flag at all.
    pub fn empty() -> (r: PTF)
        ensures
            r.bits == 0,
    {
        PTF { bits: 0 }
    }

    /// The raw bits.
    pub fn bits(&self) -> (r: u64)
        ensures
            r == self.bits,
    {
        self.bits
    }

    /// Keeps the flag bits of a descriptor and drops its address field.
    pub fn from_bits_truncate(bits: u64) -> (r: PTF)
        ensures
            r.bits == bits & FLAG_BITS,
    {
        PTF { bits: bits & FLAG_BITS }
    }

    /// Whether every bit of `mask` is set.
    pub fn contains(&self, mask: u64) -> (r: bool)
        ensures
            r == (self.bits & mask == mask),
    {
        self.bits & mask == mask
    }
}

impl From<PTF> for MappingFlags {
    fn from(f: PTF) -> (r: MappingFlags) {
        if !f.contains(PRESENT) {
            return MappingFlags::empty();
        }
        let mut ret: usize = READ_BIT;
        if f.contains(WRITABLE) {
            ret = ret | WRITE_BIT;
        }
        if !f.contains(NO_EXECUTE) {
            ret = ret | EXECUTE_BIT;
        }
        if f.contains(USER_ACCESSIBLE) {
            ret = ret | USER_BIT;
        }
        if f.contains(NO_CACHE) {
            ret = ret | UNCACHED_BIT;
        }
        MappingFlags { bits: ret }
    }
}

impl vstd::std_specs::convert::FromSpecImpl<PTF> for MappingFlags {
    open spec fn obeys_from_spec() -> bool {
        true
    }

    open spec fn from_spec(f: PTF) -> MappingFlags {
        MappingFlags { bits: mapping_bits_of(f.bits) }
    }
}

impl From<MappingFlags> for PTF {
    fn from(f: MappingFlags) -> (r: PTF) {
        if f.is_empty() {
            return PTF::empty();
        }
        let mut ret: u64 = PRESENT;
        if f.contains(MappingFlags::write()) {
            ret = ret | WRITABLE;
        }
        if !f.contains(MappingFlags::execute()) {
            ret = ret | NO_EXECUTE;
        }
        if f.contains(MappingFlags::user()) {
            ret = ret | USER_ACCESSIBLE;
        }
        if f.contains(MappingFlags::device()) || f.contains(MappingFlags::uncached()) {
            ret = ret | (NO_CACHE | WRITE_THROUGH);
        }
        PTF { bits: ret }
    }
}

impl vstd::std_specs::convert::FromSpecImpl<MappingFlags> for PTF {
    open spec fn obeys_from_spec() -> bool {
        true
    }

    open spec fn from_spec(f: MappingFlags) -> PTF {
        PTF { bits: flag_bits_of(f.bits) }
    }
}

/// An x86_64 page table entry.
#[derive(Clone, Copy, PartialEq, Eq, Structural, Debug)]
pub struct X64PTE(pub u64);

impl X64PTE {
    /// Creates an empty descriptor with all bits set to zero.
    pub fn empty() -> (r: X64PTE)
        ensures
            r.0 == 0,
    {
        X64PTE(0)
    }
}

/// What the two setters do to the word `r` of a descriptor: the flag bits
/// for the permissions `m` in place of the old ones keep the address, and
/// the address `p` in place of the old one keeps the flag bits.
pub proof fn lemma_setters(r: u64, m: usize, is_huge: bool, p: u64)
    ensures
        ({
            let w: u64 = (r & PHYS_ADDR_MASK) | page_flag_bits(m, is_huge);
            let w0: u64 = page_flag_bits(m, false) | (0u64 & PHYS_ADDR_MASK);
            let a: u64 = (r & !PHYS_ADDR_MASK) | (p & PHYS_ADDR_MASK);
            &&& m != 0 ==> (w & FLAG_BITS) & PRESENT == PRESENT && ((w & FLAG_BITS) & HUGE_PAGE == HUGE_PAGE) == is_huge
            &&& mapping_bits_of(w & FLAG_BITS) == mapping_bits_of(w0 & FLAG_BITS)
            &&& w & PHYS_ADDR_MASK == r & PHYS_ADDR_MASK
            &&& a & FLAG_BITS == r & FLAG_BITS
            &&& p & PHYS_ADDR_MASK == p ==> a & PHYS_ADDR_MASK == p
        }),
{
    let w: u64 = (r & PHYS_ADDR_MASK) | page_flag_bits(m, is_huge);
    let w0: u64 = page_flag_bits(m, false) | (0u64 & PHYS_ADDR_MASK);
    let a: u64 = (r & !PHYS_ADDR_MASK) | (p & PHYS_ADDR_MASK);
    assert((m != 0 ==> (w & FLAG_BITS) & PRESENT == PRESENT && ((w & FLAG_BITS) & HUGE_PAGE
        == HUGE_PAGE) == is_huge) && mapping_bits_of(w & FLAG_BITS) == mapping_bits_of(
        w0 & FLAG_BITS,
    ) && w & PHYS_ADDR_MASK == r & PHYS_ADDR_MASK && a & FLAG_BITS == r & FLAG_BITS && (p
        & PHYS_ADDR_MASK == p ==> a & PHYS_ADDR_MASK == p)) by (bit_vector)
        requires
            w == (r & PHYS_ADDR_MASK) | page_flag_bits(m, is_huge),
            w0 == page_flag_bits(m, false) | (0u64 & PHYS_ADDR_MASK),
            a == (r & !PHYS_ADDR_MASK) | (p & PHYS_ADDR_MASK),
    ;
}

impl GenericPTE for X64PTE {
    open spec fn spec_raw(self) -> u64 {
        self.0
    }

    open spec fn spec_from_raw(raw: u64) -> X64PTE {
        X64PTE(raw)
    }

    open spec fn spec_new_page(paddr: usize, flags: MappingFlags, is_huge: bool) -> X64PTE {
        X64PTE(page_flag_bits(flags.bits, is_huge) | (paddr as u64 & PHYS_ADDR_MASK))
    }

    open spec fn spec_new_table(paddr: usize) -> X64PTE {
        X64PTE((PRESENT | WRITABLE | USER_ACCESSIBLE) | (paddr as u64 & PHYS_ADDR_MASK))
    }

    open spec fn spec_paddr(self) -> usize {
        (self.0 & PHYS_ADDR_MASK) as usize
    }

    open spec fn spec_flags(self) -> MappingFlags {
        MappingFlags { bits: mapping_bits_of(self.0 & FLAG_BITS) }
    }

    open spec fn spec_set_paddr(self, paddr: usize) -> X64PTE {
        X64PTE((self.0 & !PHYS_ADDR_MASK) | (paddr as u64 & PHYS_ADDR_MASK))
    }

    open spec fn spec_set_flags(self, flags: MappingFlags, is_huge: bool) -> X64PTE {
        X64PTE((self.0 & PHYS_ADDR_MASK) | page_flag_bits(flags.bits, is_huge))
    }

    open spec fn spec_bits(self) -> usize {
        self.0 as usize
    }

    open spec fn spec_is_unused(self) -> bool {
        self.0 == 0
    }

    open spec fn spec_is_present(self) -> bool {
        (self.0 & FLAG_BITS) & PRESENT == PRESENT
    }

    open spec fn spec_is_huge(self) -> bool {
        (self.0 & FLAG_BITS) & HUGE_PAGE == HUGE_PAGE
    }

    open spec fn spec_short() -> bool {
        false
    }

    open spec fn spec_holds_table(paddr: usize) -> bool {
        paddr as u64 & PHYS_ADDR_MASK == paddr as u64
    }

    open spec fn spec_holds_page(paddr: usize, is_huge: bool) -> bool {
        paddr as u64 & PHYS_ADDR_MASK == paddr as u64
    }

    fn from_raw(raw: u64) -> (r: X64PTE) {
        X64PTE(raw)
    }

    fn raw(self) -> (r: u64) {
        self.0
    }

    fn new_page(paddr: usize, flags: MappingFlags, is_huge: bool) -> (r: X64PTE) {
        let mut flags = PTF::from(flags);
        if is_huge {
            flags = PTF { bits: flags.bits | HUGE_PAGE };
        }
        X64PTE(flags.bits() | (paddr as u64 & PHYS_ADDR_MASK))
    }

    fn new_table(paddr: usize) -> (r: X64PTE) {
        let flags: u64 = PRESENT | WRITABLE | USER_ACCESSIBLE;
        X64PTE(flags | (paddr as u64 & PHYS_ADDR_MASK))
    }

    fn paddr(&self) -> (r: usize) {
        #[verifier::truncate]
        ((self.0 & PHYS_ADDR_MASK) as usize)
    }

    fn flags(&self) -> (r: MappingFlags) {
        MappingFlags::from(PTF::from_bits_truncate(self.0))
    }

    fn set_paddr(&mut self, paddr: usize) {
        self.0 = (self.0 & !PHYS_ADDR_MASK) | (paddr as u64 & PHYS_ADDR_MASK);
    }

    fn set_flags(&mut self, flags: MappingFlags, is_huge: bool) {
        let mut flags = PTF::from(flags);
        if is_huge {
            flags = PTF { bits: flags.bits | HUGE_PAGE };
        }
        self.0 = (self.0 & PHYS_ADDR_MASK) | flags.bits();
    }

    fn bits(self) -> (r: usize) {
        #[verifier::truncate]
        (self.0 as usize)
    }

    fn is_unused(&self) -> (r: bool) {
        self.0 == 0
    }

    fn is_present(&self) -> (r: bool) {
        PTF::from_bits_truncate(self.0).contains(PRESENT)
    }

    fn is_huge(&self) -> (r: bool) {
        PTF::from_bits_truncate(self.0).contains(HUGE_PAGE)
    }

    fn clear(&mut self) {
        self.0 = 0;
    }

    proof fn lemma_raw(e: X64PTE) {
    }

    proof fn lemma_zero() {
        assert((0u64 & FLAG_BITS) & PRESENT != PRESENT && (0u64 & FLAG_BITS) & HUGE_PAGE
            != HUGE_PAGE && 0u64 & PHYS_ADDR_MASK == 0) by (bit_vector);
    }

    proof fn lemma_new_table(paddr: usize) {
        let p: u64 = paddr as u64;
        assert(p & PHYS_ADDR_MASK == p ==> ((PRESENT | WRITABLE | USER_ACCESSIBLE) | (p
            & PHYS_ADDR_MASK)) & PHYS_ADDR_MASK == p && (((PRESENT | WRITABLE | USER_ACCESSIBLE)
            | (p & PHYS_ADDR_MASK)) & FLAG_BITS) & HUGE_PAGE != HUGE_PAGE) by (bit_vector);
    }

    proof fn lemma_new_page(paddr: usize, flags: MappingFlags, is_huge: bool) {
        let p: u64 = paddr as u64;
        let m: usize = flags.bits;
        let w: u64 = page_flag_bits(m, is_huge) | (p & PHYS_ADDR_MASK);
        let w0: u64 = page_flag_bits(m, false) | (0u64 & PHYS_ADDR_MASK);
        assert(m != 0 ==> (w & FLAG_BITS) & PRESENT == PRESENT && ((w & FLAG_BITS) & HUGE_PAGE
            == HUGE_PAGE) == is_huge && mapping_bits_of(w & FLAG_BITS) == mapping_bits_of(
            w0 & FLAG_BITS,
        ) && (p & PHYS_ADDR_MASK == p ==> w & PHYS_ADDR_MASK == p)) by (bit_vector)
            requires
                w == page_flag_bits(m, is_huge) | (p & PHYS_ADDR_MASK),
                w0 == page_flag_bits(m, false) | (0u64 & PHYS_ADDR_MASK),
        ;
    }

    proof fn lemma_set_flags(e: X64PTE, flags: MappingFlags, is_huge: bool) {
        lemma_setters(e.0, flags.bits, is_huge, 0);
    }

    proof fn lemma_set_paddr(e: X64PTE, paddr: usize) {
        lemma_setters(e.0, 0, false, paddr as u64);
    }

    proof fn lemma_round_trip(flags: MappingFlags) {
        let m: usize = flags.bits;
        let w: u64 = page_flag_bits(m, false) | (0usize as u64 & PHYS_ADDR_MASK);
        let g: usize = mapping_bits_of(w & FLAG_BITS);
        let w2: u64 = page_flag_bits(g, false) | (0usize as u64 & PHYS_ADDR_MASK);
        assert(mapping_bits_of(w2 & FLAG_BITS) == g && w2 & PHYS_ADDR_MASK == 0 && !((w2
            & FLAG_BITS) & HUGE_PAGE == HUGE_PAGE)) by (bit_vector)
            requires
                w == page_flag_bits(m, false) | (0usize as u64 & PHYS_ADDR_MASK),
                g == mapping_bits_of(w & FLAG_BITS),
                w2 == page_flag_bits(g, false) | (0usize as u64 & PHYS_ADDR_MASK),
        ;
    }

    proof fn lemma_holds_low(paddr: usize) {
        let p: u64 = paddr as u64;
        assert(p % 0x1000 == 0 && p <= 0xffff_f000 ==> p & PHYS_ADDR_MASK == p) by (bit_vector);
    }

    proof fn lemma_short(e: X64PTE) {
    }

    proof fn lemma_present(e: X64PTE) {
        let r: u64 = e.0;
        assert((r & FLAG_BITS) & PRESENT == PRESENT ==> r != 0) by (bit_vector);
    }
}

} // verus!
