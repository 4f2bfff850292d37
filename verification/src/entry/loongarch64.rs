//! loongarch64 page table entries.
//!
//! Loongarch64 Multi-level page table
//!
//! <https://loongson.github.io/LoongArch-Documentation/LoongArch-Vol1-EN.html#section-multi-level-page-table-structure-supported-by-page-walking>

use vstd::prelude::*;
use crate::entry::{GenericPTE, MappingFlags};
use crate::entry::{READ_BIT, WRITE_BIT, EXECUTE_BIT, USER_BIT, DEVICE_BIT, UNCACHED_BIT};

verus! {

/// Whether the PTE is valid.
pub const V: u64 = 1 << 0;

/// Indicates the virtual page has been written since the last time the D bit
/// was cleared.
pub const D: u64 = 1 << 1;

/// Privilege Level Low Bit
pub const PLVL: u64 = 1 << 2;

/// Privilege Level High Bit
pub const PLVH: u64 = 1 << 3;

/// Memory Access Type Low Bit.
///
/// The memory access type of the page table entry is 0 for strongly-ordered
/// uncached, 1 for coherent cached, 2 for weakly-ordered uncached, and 3 for
/// reserved.
pub const MATL: u64 = 1 << 4;

/// Memory Access Type High Bit
pub const MATH: u64 = 1 << 5;

/// Designates a global mapping OR Whether the page is huge page.
pub const GH: u64 = 1 << 6;

/// Whether the physical page is exist.
pub const P: u64 = 1 << 7;

/// Whether the page is writable.
pub const W: u64 = 1 << 8;

/// Designates a global mapping when using huge page.
pub const G: u64 = 1 << 12;

/// Whether the page is not readable.
pub const NR: u64 = 1 << 61;

/// Whether the page is not executable.
pub const NX: u64 = 1 << 62;

/// Whether the privilege Level is restricted. When RPLV is 0, the PTE can be
/// accessed by any program with privilege Level highter than PLV.
pub const RPLV: u64 = 1 << 63;

/// Every bit of a descriptor that is a named flag.
pub const FLAG_BITS: u64 = 0xe000_0000_0000_11ff;

/// The address field of a descriptor, bits 12..48.
pub const PHYS_ADDR_MASK: u64 = 0x0000_ffff_ffff_f000;

/// Page-table entry flags.
///
/// <https://loongson.github.io/LoongArch-Documentation/LoongArch-Vol1-EN.html#tlb-refill-exception-entry-low-order-bits>
#[derive(Clone, Copy, PartialEq, Eq, Structural, Debug)]
pub struct PTEFlags {
    /// The raw bits.
    pub bits: u64,
}

/// The permissions that the flag bits `f` of a descriptor grant.
pub open spec fn mapping_bits_of(f: u64) -> usize {
    if f & V != V {
        0
    } else {
        let r0: usize = 0;
        let r1: usize = if f & NR != NR { r0 | READ_BIT } else { r0 };
        let r2: usize = if f & W == W { r1 | WRITE_BIT } else { r1 };
        let r3: usize = if f & NX != NX { r2 | EXECUTE_BIT } else { r2 };
        let r4: usize = if f & (PLVL | PLVH) == (PLVL | PLVH) { r3 | USER_BIT } else { r3 };
        let r5: usize = if f & MATL != MATL {
            if f & MATH == MATH {
                r4 | UNCACHED_BIT
            } else {
                r4 | DEVICE_BIT
            }
        } else {
            r4
        };
        r5
    }
}

/// The flag bits that stand for the permissions `m`.
pub open spec fn flag_bits_of(m: usize) -> u64 {
    if m == 0 {
        0
    } else {
        let r0: u64 = V | P;
        let r1: u64 = if m & READ_BIT != READ_BIT { r0 | NR } else { r0 };
        let r2: u64 = if m & WRITE_BIT == WRITE_BIT { r1 | (W | D) } else { r1 };
        let r3: u64 = if m & EXECUTE_BIT != EXECUTE_BIT { r2 | NX } else { r2 };
        let r4: u64 = if m & USER_BIT == USER_BIT { r3 | (PLVH | PLVL) } else { r3 };
        let r5: u64 = if m & DEVICE_BIT != DEVICE_BIT {
            if m & UNCACHED_BIT == UNCACHED_BIT {
                r4 | MATH
            } else {
                r4 | MATL
            }
        } else {
            r4
        };
        r5
    }
}

/// The flag bits of a page descriptor with permissions `m`.
pub open spec fn page_flag_bits(m: usize, is_huge: bool) -> u64 {
    if is_huge {
        flag_bits_of(m) | GH
    } else {
        flag_bits_of(m)
    }
}

impl PTEFlags {
    /// No flag at all.
    pub fn empty() -> (r: PTEFlags)
        ensures
            r.bits == 0,
    {
        PTEFlags { bits: 0 }
    }

    /// The raw bits.
    pub fn bits(&self) -> (r: u64)
        ensures
            r == self.bits,
    {
        self.bits
    }

    /// Keeps the named flag bits of a descriptor and drops the others.
    pub fn from_bits_truncate(bits: u64) -> (r: PTEFlags)
        ensures
            r.bits == bits & FLAG_BITS,
    {
        PTEFlags { bits: bits & FLAG_BITS }
    }

    /// Whether every bit of `mask` is set.
    pub fn contains(&self, mask: u64) -> (r: bool)
        ensures
            r == (self.bits & mask == mask),
    {
        self.bits & mask == mask
    }
}

impl From<PTEFlags> for MappingFlags {
    fn from(f: PTEFlags) -> (r: MappingFlags) {
        if !f.contains(V) {
            return MappingFlags::empty();
        }
        let mut ret: usize = 0;
        if !f.contains(NR) {
            ret = ret | READ_BIT;
        }
        if f.contains(W) {
            ret = ret | WRITE_BIT;
        }
        if !f.contains(NX) {
            ret = ret | EXECUTE_BIT;
        }
        if f.contains(PLVL | PLVH) {
            ret = ret | USER_BIT;
        }
        if !f.contains(MATL) {
            if f.contains(MATH) {
                ret = ret | UNCACHED_BIT;
            } else {
                ret = ret | DEVICE_BIT;
            }
        }
        MappingFlags { bits: ret }
    }
}

impl vstd::std_specs::convert::FromSpecImpl<PTEFlags> for MappingFlags {
    open spec fn obeys_from_spec() -> bool {
        true
    }

    open spec fn from_spec(f: PTEFlags) -> MappingFlags {
        MappingFlags { bits: mapping_bits_of(f.bits) }
    }
}

impl From<MappingFlags> for PTEFlags {
    fn from(f: MappingFlags) -> (r: PTEFlags) {
        if f.is_empty() {
            return PTEFlags::empty();
        }
        let mut ret: u64 = V | P;
        if !f.contains(MappingFlags::read()) {
            ret = ret | NR;
        }
        if f.contains(MappingFlags::write()) {
            ret = ret | (W | D);
        }
        if !f.contains(MappingFlags::execute()) {
            ret = ret | NX;
        }
        if f.contains(MappingFlags::user()) {
            ret = ret | (PLVH | PLVL);
        }
        if !f.contains(MappingFlags::device()) {
            if f.contains(MappingFlags::uncached()) {
                ret = ret | MATH;
            } else {
                ret = ret | MATL;
            }
        }
        PTEFlags { bits: ret }
    }
}

impl vstd::std_specs::convert::FromSpecImpl<MappingFlags> for PTEFlags {
    open spec fn obeys_from_spec() -> bool {
        true
    }

    open spec fn from_spec(f: MappingFlags) -> PTEFlags {
        PTEFlags { bits: flag_bits_of(f.bits) }
    }
}

/// page table entry for loongarch64 system
#[derive(Clone, Copy, PartialEq, Eq, Structural, Debug)]
pub struct LA64PTE(pub u64);

impl LA64PTE {
    /// Creates an empty descriptor with all bits set to zero.
    pub fn empty() -> (r: LA64PTE)
        ensures
            r.0 == 0,
    {
        LA64PTE(0)
    }
}

/// What the two setters do to the word `r` of a descriptor: the flag bits
/// for the permissions `m` in place of the old ones keep the address, and
/// the address `p` in place of the old one keeps the flag bits.
pub proof fn lemma_setters(r: u64, m: usize, is_huge: bool, p: u64)
    ensures
        ({
            let w: u64 = (r & PHYS_ADDR_MASK) | page_flag_bits(m, is_huge);
            let w0: u64 = page_flag_bits(m, false) | (0u64 & PHYS_ADDR_MASK);
            let a: u64 = (r & !PHYS_ADDR_MASK) | (p & PHYS_ADDR_MASK);
            &&& m != 0 ==> (w & FLAG_BITS) & P == P && ((w & FLAG_BITS) & GH == GH) == is_huge
            &&& mapping_bits_of(w & FLAG_BITS) == mapping_bits_of(w0 & FLAG_BITS)
            &&& w & PHYS_ADDR_MASK == r & PHYS_ADDR_MASK
            &&& ((a & FLAG_BITS) & P == P) == ((r & FLAG_BITS) & P == P)
            &&& ((a & FLAG_BITS) & V == V) == ((r & FLAG_BITS) & V == V)
            &&& ((a & FLAG_BITS) & GH == GH) == ((r & FLAG_BITS) & GH == GH)
            &&& p & PHYS_ADDR_MASK == p ==> a & PHYS_ADDR_MASK == p
        }),
{
    let w: u64 = (r & PHYS_ADDR_MASK) | page_flag_bits(m, is_huge);
    let w0: u64 = page_flag_bits(m, false) | (0u64 & PHYS_ADDR_MASK);
    let a: u64 = (r & !PHYS_ADDR_MASK) | (p & PHYS_ADDR_MASK);
    assert((m != 0 ==> (w & FLAG_BITS) & P == P && ((w & FLAG_BITS) & GH
        == GH) == is_huge) && mapping_bits_of(w & FLAG_BITS) == mapping_bits_of(
        w0 & FLAG_BITS,
    ) && w & PHYS_ADDR_MASK == r & PHYS_ADDR_MASK && ((a & FLAG_BITS) & P == P) == ((r & FLAG_BITS) & P == P) && ((a & FLAG_BITS) & V == V) == ((r
        & FLAG_BITS) & V == V) && ((a & FLAG_BITS) & GH == GH) == ((r & FLAG_BITS) & GH == GH) && (p
        & PHYS_ADDR_MASK == p ==> a & PHYS_ADDR_MASK == p)) by (bit_vector)
        requires
            w == (r & PHYS_ADDR_MASK) | page_flag_bits(m, is_huge),
            w0 == page_flag_bits(m, false) | (0u64 & PHYS_ADDR_MASK),
            a == (r & !PHYS_ADDR_MASK) | (p & PHYS_ADDR_MASK),
    ;
}

impl GenericPTE for LA64PTE {
    open spec fn spec_raw(self) -> u64 {
        self.0
    }

    open spec fn spec_from_raw(raw: u64) -> LA64PTE {
        LA64PTE(raw)
    }

    open spec fn spec_new_page(paddr: usize, flags: MappingFlags, is_huge: bool) -> LA64PTE {
        LA64PTE(page_flag_bits(flags.bits, is_huge) | (paddr as u64 & PHYS_ADDR_MASK))
    }

    /// A table descriptor is the address of the table and nothing else.
    open spec fn spec_new_table(paddr: usize) -> LA64PTE {
        LA64PTE(paddr as u64 & PHYS_ADDR_MASK)
    }

    open spec fn spec_paddr(self) -> usize {
        (self.0 & PHYS_ADDR_MASK) as usize
    }

    open spec fn spec_flags(self) -> MappingFlags {
        MappingFlags { bits: mapping_bits_of(self.0 & FLAG_BITS) }
    }

    open spec fn spec_set_paddr(self, paddr: usize) -> LA64PTE {
        LA64PTE((self.0 & !PHYS_ADDR_MASK) | (paddr as u64 & PHYS_ADDR_MASK))
    }

    open spec fn spec_set_flags(self, flags: MappingFlags, is_huge: bool) -> LA64PTE {
        LA64PTE((self.0 & PHYS_ADDR_MASK) | page_flag_bits(flags.bits, is_huge))
    }

    open spec fn spec_bits(self) -> usize {
        self.0 as usize
    }

    open spec fn spec_is_unused(self) -> bool {
        self.0 == 0
    }

    /// Present is the bit `P` or the bit `V`: either marks a live descriptor.
    open spec fn spec_is_present(self) -> bool {
        (self.0 & FLAG_BITS) & P == P || (self.0 & FLAG_BITS) & V == V
    }

    open spec fn spec_is_huge(self) -> bool {
        (self.0 & FLAG_BITS) & GH == GH
    }

    open spec fn spec_short() -> bool {
        false
    }

    open spec fn spec_holds_table(paddr: usize) -> bool {
        paddr as u64 & PHYS_ADDR_MASK == paddr as u64
    }

    open spec fn spec_holds_page(paddr: usize, is_huge: bool) -> bool {
        paddr as u64 & PHYS_ADDR_MASK == paddr as u64
    }

    fn from_raw(raw: u64) -> (r: LA64PTE) {
        LA64PTE(raw)
    }

    fn raw(self) -> (r: u64) {
        self.0
    }

    fn new_page(paddr: usize, flags: MappingFlags, is_huge: bool) -> (r: LA64PTE) {
        let mut flags = PTEFlags::from(flags);
        if is_huge {
            flags = PTEFlags { bits: flags.bits | GH };
        }
        LA64PTE(flags.bits() | (paddr as u64 & PHYS_ADDR_MASK))
    }

    fn new_table(paddr: usize) -> (r: LA64PTE) {
        LA64PTE(paddr as u64 & PHYS_ADDR_MASK)
    }

    fn paddr(&self) -> (r: usize) {
        #[verifier::truncate]
        ((self.0 & PHYS_ADDR_MASK) as usize)
    }

    fn flags(&self) -> (r: MappingFlags) {
        MappingFlags::from(PTEFlags::from_bits_truncate(self.0))
    }

    fn set_paddr(&mut self, paddr: usize) {
        self.0 = (self.0 & !PHYS_ADDR_MASK) | (paddr as u64 & PHYS_ADDR_MASK);
    }

    fn set_flags(&mut self, flags: MappingFlags, is_huge: bool) {
        let mut flags = PTEFlags::from(flags);
        if is_huge {
            flags = PTEFlags { bits: flags.bits | GH };
        }
        self.0 = (self.0 & PHYS_ADDR_MASK) | flags.bits();
    }

    fn bits(self) -> (r: usize) {
        #[verifier::truncate]
        (self.0 as usize)
    }

    fn is_unused(&self) -> (r: bool) {
        self.0 == 0
    }

    fn is_present(&self) -> (r: bool) {
        let flags = PTEFlags::from_bits_truncate(self.0);
        flags.contains(P) || flags.contains(V)
    }

    fn is_huge(&self) -> (r: bool) {
        PTEFlags::from_bits_truncate(self.0).contains(GH)
    }

    fn clear(&mut self) {
        self.0 = 0;
    }

    proof fn lemma_raw(e: LA64PTE) {
    }

    proof fn lemma_zero() {
        assert((0u64 & FLAG_BITS) & P != P && (0u64 & FLAG_BITS) & V != V && (0u64 & FLAG_BITS) & GH
            != GH && 0u64 & PHYS_ADDR_MASK == 0) by (bit_vector);
    }

    proof fn lemma_new_table(paddr: usize) {
        let p: u64 = paddr as u64;
        assert(p & PHYS_ADDR_MASK == p ==> (p & PHYS_ADDR_MASK) & PHYS_ADDR_MASK == p && ((p
            & PHYS_ADDR_MASK) & FLAG_BITS) & GH != GH) by (bit_vector);
    }

    proof fn lemma_new_page(paddr: usize, flags: MappingFlags, is_huge: bool) {
        let p: u64 = paddr as u64;
        let m: usize = flags.bits;
        let w: u64 = page_flag_bits(m, is_huge) | (p & PHYS_ADDR_MASK);
        let w0: u64 = page_flag_bits(m, false) | (0u64 & PHYS_ADDR_MASK);
        assert(m != 0 ==> (w & FLAG_BITS) & P == P && ((w & FLAG_BITS) & GH == GH) == is_huge
            && mapping_bits_of(w & FLAG_BITS) == mapping_bits_of(w0 & FLAG_BITS) && (p
            & PHYS_ADDR_MASK == p ==> w & PHYS_ADDR_MASK == p)) by (bit_vector)
            requires
                w == page_flag_bits(m, is_huge) | (p & PHYS_ADDR_MASK),
                w0 == page_flag_bits(m, false) | (0u64 & PHYS_ADDR_MASK),
        ;
    }

    proof fn lemma_set_flags(e: LA64PTE, flags: MappingFlags, is_huge: bool) {
        lemma_setters(e.0, flags.bits, is_huge, 0);
    }

    proof fn lemma_set_paddr(e: LA64PTE, paddr: usize) {
        lemma_setters(e.0, 0, false, paddr as u64);
    }

    proof fn lemma_round_trip(flags: MappingFlags) {
        let m: usize = flags.bits;
        let w: u64 = page_flag_bits(m, false) | (0usize as u64 & PHYS_ADDR_MASK);
        let g: usize = mapping_bits_of(w & FLAG_BITS);
        let w2: u64 = page_flag_bits(g, false) | (0usize as u64 & PHYS_ADDR_MASK);
        assert(mapping_bits_of(w2 & FLAG_BITS) == g && w2 & PHYS_ADDR_MASK == 0 && !((w2
            & FLAG_BITS) & GH == GH)) by (bit_vector)
            requires
                w == page_flag_bits(m, false) | (0usize as u64 & PHYS_ADDR_MASK),
                g == mapping_bits_of(w & FLAG_BITS),
                w2 == page_flag_bits(g, false) | (0usize as u64 & PHYS_ADDR_MASK),
        ;
    }

    proof fn lemma_holds_low(paddr: usize) {
        let p: u64 = paddr as u64;
        assert(p % 0x1000 == 0 && p <= 0xffff_f000 ==> p & PHYS_ADDR_MASK == p) by (bit_vector);
    }

    proof fn lemma_short(e: LA64PTE) {
    }

    proof fn lemma_present(e: LA64PTE) {
        let r: u64 = e.0;
        assert((r & FLAG_BITS) & P == P || (r & FLAG_BITS) & V == V ==> r != 0) by (bit_vector);
    }
}

} // verus!
