//! ARMv7-A Short-descriptor translation table format.
//!
//! This module implements page table entries for ARMv7-A architecture using
//! the Short-descriptor format, which supports 2-level page tables:
//! - L1 (Translation Table): 4096 entries, each mapping 1MB or pointing to L2
//! - L2 (Page Table): 256 entries, each mapping 4KB (Small Page)
//!
//! The two low bits of a descriptor tell its kind: `00` invalid, `01` page
//! table, `10` section, `11` small page. A section keeps its attributes where
//! the architecture has them for sections. A small page has its address in
//! bits 12..32, so the attributes that a section keeps there lie lower in a
//! small page: TEX in bits 6..9, AP[2] in bit 9 and S in bit 5.

use vstd::prelude::*;
use crate::entry::{GenericPTE, MappingFlags};
use crate::entry::{READ_BIT, WRITE_BIT, EXECUTE_BIT, USER_BIT, DEVICE_BIT, UNCACHED_BIT};

verus! {

/// Bit[0]: Descriptor type bit 0.
pub const TYPE_BIT0: u32 = 1 << 0;

/// Bit[1]: Descriptor type bit 1.
pub const TYPE_BIT1: u32 = 1 << 1;

/// Bit[2]: Bufferable (B) - Part of memory type encoding
pub const B: u32 = 1 << 2;

/// Bit[3]: Cacheable (C) - Part of memory type encoding
pub const C: u32 = 1 << 3;

/// Bit[4]: Execute Never (XN)
pub const XN_SMALL: u32 = 1 << 4;

/// Bits[8:5]: Domain for Sections (only applies to L1 Section entries)
pub const DOMAIN_MASK: u32 = 0b1111 << 5;

/// Bit[9]: Implementation defined
pub const IMP: u32 = 1 << 9;

/// Bit[10]: Access Permission bit [0]
pub const AP0: u32 = 1 << 10;

/// Bit[11]: Access Permission bit [1]
pub const AP1: u32 = 1 << 11;

/// Bit[12]: Type Extension (TEX) bit [0] - Extended memory type
pub const TEX0: u32 = 1 << 12;

/// Bit[13]: Type Extension (TEX) bit [1]
pub const TEX1: u32 = 1 << 13;

/// Bit[14]: Type Extension (TEX) bit [2]
pub const TEX2: u32 = 1 << 14;

/// Bit[15]: Access Permission bit [2]
pub const AP2: u32 = 1 << 15;

/// Bit[16]: Shareable (S)
pub const S: u32 = 1 << 16;

/// Bit[17]: Not Global (nG)
pub const NG: u32 = 1 << 17;

/// Bit[19]: For Section: Not Secure (NS)
pub const NS: u32 = 1 << 19;

/// The two bits that tell the kind of a descriptor.
pub const TYPE_MASK: u32 = 0b11;

/// Section descriptor type (1MB block)
pub const SECTION: u32 = TYPE_BIT1;

/// Page table descriptor type (points to L2)
pub const PAGE_TABLE: u32 = TYPE_BIT0;

/// Small page descriptor type (4KB page in L2)
pub const SMALL_PAGE: u32 = TYPE_BIT1 | TYPE_BIT0;

/// Normal memory attributes (Inner/Outer Write-Back, Write-Allocate, Cacheable)
/// TEX=001, C=1, B=1 -> Normal memory, Cacheable
pub const NORMAL_MEMORY: u32 = TEX0 | C | B;

/// Device memory attributes (Device, nGnRnE)
/// TEX=000, C=0, B=1 -> Device memory
pub const DEVICE_MEMORY: u32 = B;

/// Shareable attribute for normal memory
pub const NORMAL_SHAREABLE: u32 = NORMAL_MEMORY | S;

/// Access permission: Privileged RW, User no access
pub const AP_PRIV_RW: u32 = AP0;

/// Access permission: Privileged RW, User RW
pub const AP_USER_RW: u32 = AP0 | AP1;

/// Access permission: Privileged RO, User no access
pub const AP_PRIV_RO: u32 = AP2 | AP0;

/// Access permission: Privileged RO, User RO
pub const AP_USER_RO: u32 = AP2 | AP0 | AP1;

/// Every bit that has a name as an attribute.
pub const ATTR_BITS: u32 = 0x000b_ffff;

/// Physical address mask for Section (bits [31:20] for 1MB alignment)
pub const SECTION_ADDR_MASK: u32 = 0xfff0_0000;

/// Physical address mask for Page Table (bits [31:10] for 1KB alignment)
pub const PAGE_TABLE_ADDR_MASK: u32 = 0xffff_fc00;

/// Physical address mask for Small Page (bits [31:12] for 4KB alignment)
pub const SMALL_PAGE_ADDR_MASK: u32 = 0xffff_f000;

/// The memory type and the access permissions for `m`, where a section has
/// them.
pub open spec fn common_bits_of(m: usize) -> u32 {
    let memory: u32 = if m & DEVICE_BIT == DEVICE_BIT {
        DEVICE_MEMORY
    } else if m & UNCACHED_BIT == UNCACHED_BIT {
        TEX0
    } else {
        NORMAL_SHAREABLE
    };
    let access: u32 = if m & USER_BIT == USER_BIT {
        if m & WRITE_BIT == WRITE_BIT {
            AP_USER_RW
        } else {
            AP_USER_RO
        }
    } else if m & WRITE_BIT == WRITE_BIT {
        AP_PRIV_RW
    } else {
        AP_PRIV_RO
    };
    memory | access
}

/// The attributes `a` of a section, moved to where a small page has them:
/// TEX from bits 12..15 to bits 6..9, AP[2] from bit 15 to bit 9, and S from
/// bit 16 to bit 5. What lies below bit 12 stays.
pub open spec fn spec_to_small_page(a: u32) -> u32 {
    (a & 0xfff) | (((a >> 12) & 0b111) << 6) | (((a >> 15) & 1) << 9) | (((a >> 16) & 1) << 5)
}

/// The attributes `w` of a small page, moved to where a section has them.
pub open spec fn spec_from_small_page(w: u32) -> u32 {
    (w & 0xc1f) | (((w >> 6) & 0b111) << 12) | (((w >> 9) & 1) << 15) | (((w >> 5) & 1) << 16)
}

/// The attributes of a section with the permissions `m`. No permission at
/// all gives an invalid descriptor.
pub open spec fn section_attr_of(m: usize) -> u32 {
    if m == 0 {
        0
    } else {
        let r0: u32 = SECTION | common_bits_of(m);
        if m & EXECUTE_BIT != EXECUTE_BIT {
            r0 | XN_SMALL
        } else {
            r0
        }
    }
}

/// The attributes of a small page with the permissions `m`. No permission at
/// all gives an invalid descriptor.
pub open spec fn small_page_attr_of(m: usize) -> u32 {
    if m == 0 {
        0
    } else {
        let r0: u32 = SMALL_PAGE | spec_to_small_page(common_bits_of(m));
        if m & EXECUTE_BIT != EXECUTE_BIT {
            r0 | XN_SMALL
        } else {
            r0
        }
    }
}

/// The permissions that the attributes `a` grant, read where a section has
/// them.
pub open spec fn mapping_bits_of(a: u32) -> usize {
    if a & TYPE_MASK == 0 {
        0
    } else {
        let ap: u32 = ((a >> 10) & 0b11) | (((a >> 15) & 1) << 2);
        let tex: u32 = (a >> 12) & 0b111;
        let c: u32 = (a >> 3) & 1;
        let b: u32 = (a >> 2) & 1;
        let r0: usize = READ_BIT;
        let r1: usize = if ap == 0b001 || ap == 0b011 { r0 | WRITE_BIT } else { r0 };
        let r2: usize = if ap & 0b10 != 0 { r1 | USER_BIT } else { r1 };
        let r3: usize = if a & XN_SMALL != XN_SMALL { r2 | EXECUTE_BIT } else { r2 };
        let r4: usize = if tex == 0 && c == 0 && b == 1 {
            r3 | DEVICE_BIT
        } else if tex == 1 && c == 0 && b == 0 {
            r3 | UNCACHED_BIT
        } else {
            r3
        };
        r4
    }
}

/// The attributes of the descriptor `w`, where a section has them: those of
/// a small page are moved there, those of any other stay.
pub open spec fn attrs_of_word(w: u32) -> u32 {
    if w & TYPE_MASK == SMALL_PAGE {
        spec_from_small_page(w & 0xfff)
    } else {
        w & ATTR_BITS
    }
}

/// The physical address that the descriptor `w` holds, by its kind.
pub open spec fn paddr_of_word(w: u32) -> u32 {
    if w & TYPE_MASK == PAGE_TABLE {
        w & PAGE_TABLE_ADDR_MASK
    } else if w & TYPE_MASK == SECTION {
        w & SECTION_ADDR_MASK
    } else if w & TYPE_MASK == SMALL_PAGE {
        w & SMALL_PAGE_ADDR_MASK
    } else {
        0
    }
}

/// The descriptor `w` with the address `p` in the place that its kind has
/// for it. An invalid descriptor has no place for an address.
pub open spec fn with_paddr(w: u32, p: u32) -> u32 {
    if w & TYPE_MASK == PAGE_TABLE {
        (w & !PAGE_TABLE_ADDR_MASK) | (p & PAGE_TABLE_ADDR_MASK)
    } else if w & TYPE_MASK == SECTION {
        (w & !SECTION_ADDR_MASK) | (p & SECTION_ADDR_MASK)
    } else if w & TYPE_MASK == SMALL_PAGE {
        (w & !SMALL_PAGE_ADDR_MASK) | (p & SMALL_PAGE_ADDR_MASK)
    } else {
        w
    }
}

/// The low 32 bits of an address.
pub open spec fn spec_low32(paddr: usize) -> u32 {
    ((paddr as u64) & 0xffff_ffff) as u32
}

/// The low 32 bits of an address.
pub fn low32(paddr: usize) -> (r: u32)
    ensures
        r == spec_low32(paddr),
{
    let p: u64 = paddr as u64;
    assert(p & 0xffff_ffff <= 0xffff_ffff) by (bit_vector);
    (p & 0xffff_ffff) as u32
}

/// A section descriptor for the frame at `paddr` with the permissions `m`.
pub open spec fn section_word(paddr: usize, m: usize) -> u32 {
    section_attr_of(m) | (spec_low32(paddr) & SECTION_ADDR_MASK)
}

/// A small page descriptor for the frame at `paddr` with the permissions
/// `m`.
pub open spec fn small_page_word(paddr: usize, m: usize) -> u32 {
    small_page_attr_of(m) | (spec_low32(paddr) & SMALL_PAGE_ADDR_MASK)
}

/// ARMv7-A Short-descriptor page table entry flags.
///
/// Reference: ARM Architecture Reference Manual ARMv7-A/R Edition
/// Section B3.5: Short-descriptor translation table format
#[derive(Debug, Clone, Copy, PartialEq, Eq, Structural)]
pub struct DescriptorAttr {
    /// The raw bits.
    pub bits: u32,
}

impl DescriptorAttr {
    /// The raw bits.
    pub fn bits(&self) -> (r: u32)
        ensures
            r == self.bits,
    {
        self.bits
    }

    /// The attributes with exactly the bits of `bits`.
    pub fn from_bits_retain(bits: u32) -> (r: DescriptorAttr)
        ensures
            r.bits == bits,
    {
        DescriptorAttr { bits }
    }

    /// Keeps the bits of `bits` that have a name and drops the others.
    pub fn from_bits_truncate(bits: u32) -> (r: DescriptorAttr)
        ensures
            r.bits == bits & ATTR_BITS,
    {
        DescriptorAttr { bits: bits & ATTR_BITS }
    }

    /// Whether every bit of `mask` is set.
    pub fn contains(&self, mask: u32) -> (r: bool)
        ensures
            r == (self.bits & mask == mask),
    {
        self.bits & mask == mask
    }

    /// The memory type and the access permissions for `flags`, where a
    /// section has them.
    pub fn common_flags(flags: MappingFlags) -> (r: u32)
        ensures
            r == common_bits_of(flags.bits),
    {
        // Memory type
        let memory: u32 = if flags.contains(MappingFlags::device()) {
            DEVICE_MEMORY
        } else if flags.contains(MappingFlags::uncached()) {
            // Uncached normal memory: TEX=001, C=0, B=0
            TEX0
        } else {
            // Normal cacheable memory with shareable
            NORMAL_SHAREABLE
        };
        // Access permissions
        let has_write = flags.contains(MappingFlags::write());
        let has_user = flags.contains(MappingFlags::user());
        let access: u32 = if has_user {
            if has_write {
                AP_USER_RW
            } else {
                AP_USER_RO
            }
        } else if has_write {
            AP_PRIV_RW
        } else {
            AP_PRIV_RO
        };
        memory | access
    }

    /// Moves the attributes of a section to where a small page has them.
    pub fn to_small_page(attrs: u32) -> (r: u32)
        ensures
            r == spec_to_small_page(attrs),
    {
        (attrs & 0xfff) | (((attrs >> 12) & 0b111) << 6) | (((attrs >> 15) & 1) << 9) | (((attrs
            >> 16) & 1) << 5)
    }

    /// Moves the attributes of a small page to where a section has them.
    pub fn from_small_page(word: u32) -> (r: u32)
        ensures
            r == spec_from_small_page(word),
    {
        (word & 0xc1f) | (((word >> 6) & 0b111) << 12) | (((word >> 9) & 1) << 15) | (((word >> 5)
            & 1) << 16)
    }

    /// Creates descriptor attributes from MappingFlags for a Section (1MB).
    pub fn from_mapping_flags_section(flags: MappingFlags) -> (r: DescriptorAttr)
        ensures
            r.bits == section_attr_of(flags.bits),
    {
        if flags.is_empty() {
            return Self::from_bits_retain(0);
        }
        let mut bits: u32 = SECTION | Self::common_flags(flags);
        if !flags.contains(MappingFlags::execute()) {
            bits = bits | XN_SMALL;
        }
        Self::from_bits_retain(bits)
    }

    /// Creates descriptor attributes from MappingFlags for a Small Page (4KB).
    pub fn from_mapping_flags_small_page(flags: MappingFlags) -> (r: DescriptorAttr)
        ensures
            r.bits == small_page_attr_of(flags.bits),
    {
        if flags.is_empty() {
            return Self::from_bits_retain(0);
        }
        let mut bits: u32 = SMALL_PAGE | Self::to_small_page(Self::common_flags(flags));
        // Execute Never for Small Pages
        if !flags.contains(MappingFlags::execute()) {
            bits = bits | XN_SMALL;
        }
        Self::from_bits_retain(bits)
    }

    /// Returns the descriptor type.
    pub fn descriptor_type(&self) -> (r: u32)
        ensures
            r == self.bits & TYPE_MASK,
    {
        self.bits & TYPE_MASK
    }

    /// Checks if this is a valid descriptor.
    pub fn is_valid(&self) -> (r: bool)
        ensures
            r == (self.bits & TYPE_MASK != 0),
    {
        self.descriptor_type() != 0
    }

    /// Checks if this is a Section descriptor (L1).
    pub fn is_section(&self) -> (r: bool)
        ensures
            r == (self.bits & TYPE_MASK == SECTION),
    {
        self.descriptor_type() == SECTION
    }

    /// Checks if this is a Page Table descriptor (L1).
    pub fn is_page_table(&self) -> (r: bool)
        ensures
            r == (self.bits & TYPE_MASK == PAGE_TABLE),
    {
        self.descriptor_type() == PAGE_TABLE
    }

    /// Checks if this is a Small Page descriptor (L2).
    pub fn is_small_page(&self) -> (r: bool)
        ensures
            r == (self.bits & TYPE_MASK == SMALL_PAGE),
    {
        self.descriptor_type() == SMALL_PAGE
    }
}

impl From<DescriptorAttr> for MappingFlags {
    fn from(attr: DescriptorAttr) -> (r: MappingFlags) {
        if !attr.is_valid() {
            return MappingFlags::empty();
        }
        let mut flags: usize = READ_BIT;
        // Check write permission from AP bits
        let ap: u32 = ((attr.bits() >> 10) & 0b11) | (((attr.bits() >> 15) & 1) << 2);
        if ap == 0b001 || ap == 0b011 {
            // Privileged RW or User RW
            flags = flags | WRITE_BIT;
        }
        // Check user access
        if (ap & 0b10) != 0 {
            flags = flags | USER_BIT;
        }
        // Check execute permission (XN bit)
        if !attr.contains(XN_SMALL) {
            flags = flags | EXECUTE_BIT;
        }
        // Check memory type
        let tex: u32 = (attr.bits() >> 12) & 0b111;
        let c: u32 = (attr.bits() >> 3) & 1;
        let b: u32 = (attr.bits() >> 2) & 1;
        if tex == 0 && c == 0 && b == 1 {
            flags = flags | DEVICE_BIT;
        } else if tex == 1 && c == 0 && b == 0 {
            flags = flags | UNCACHED_BIT;
        }
        MappingFlags { bits: flags }
    }
}

impl vstd::std_specs::convert::FromSpecImpl<DescriptorAttr> for MappingFlags {
    open spec fn obeys_from_spec() -> bool {
        true
    }

    open spec fn from_spec(attr: DescriptorAttr) -> MappingFlags {
        MappingFlags { bits: mapping_bits_of(attr.bits) }
    }
}

/// An ARMv7-A Short-descriptor page table entry (32-bit).
///
/// This can represent:
/// - L1 Section descriptor (1MB mapping)
/// - L1 Page Table descriptor (points to L2 table)
/// - L2 Small Page descriptor (4KB mapping)
#[derive(Clone, Copy, PartialEq, Eq, Structural, Debug)]
pub struct A32PTE(pub u32);

impl A32PTE {
    /// Creates an empty descriptor with all bits set to zero.
    pub fn empty() -> (r: A32PTE)
        ensures
            r.0 == 0,
    {
        A32PTE(0)
    }

    /// Creates a Section descriptor (1MB block).
    pub fn new_section(paddr: usize, flags: MappingFlags) -> (r: A32PTE)
        ensures
            r.0 == section_word(paddr, flags.bits),
    {
        let attr = DescriptorAttr::from_mapping_flags_section(flags);
        A32PTE(attr.bits() | (low32(paddr) & SECTION_ADDR_MASK))
    }

    /// Creates a Small Page descriptor (4KB page).
    pub fn new_small_page(paddr: usize, flags: MappingFlags) -> (r: A32PTE)
        ensures
            r.0 == small_page_word(paddr, flags.bits),
    {
        let attr = DescriptorAttr::from_mapping_flags_small_page(flags);
        A32PTE(attr.bits() | (low32(paddr) & SMALL_PAGE_ADDR_MASK))
    }

    /// Returns the descriptor type field.
    pub fn descriptor_type(&self) -> (r: u32)
        ensures
            r == self.0 & TYPE_MASK,
    {
        self.0 & TYPE_MASK
    }

    /// Checks if this is a Section descriptor.
    pub fn is_section(&self) -> (r: bool)
        ensures
            r == (self.0 & TYPE_MASK == SECTION),
    {
        (self.0 & TYPE_MASK) == SECTION
    }
}

impl GenericPTE for A32PTE {
    open spec fn spec_raw(self) -> u64 {
        self.0 as u64
    }

    open spec fn spec_from_raw(raw: u64) -> A32PTE {
        A32PTE((raw & 0xffff_ffff) as u32)
    }

    open spec fn spec_new_page(paddr: usize, flags: MappingFlags, is_huge: bool) -> A32PTE {
        if is_huge {
            A32PTE(section_word(paddr, flags.bits))
        } else {
            A32PTE(small_page_word(paddr, flags.bits))
        }
    }

    open spec fn spec_new_table(paddr: usize) -> A32PTE {
        A32PTE(PAGE_TABLE | (spec_low32(paddr) & PAGE_TABLE_ADDR_MASK))
    }

    open spec fn spec_paddr(self) -> usize {
        paddr_of_word(self.0) as usize
    }

    open spec fn spec_flags(self) -> MappingFlags {
        MappingFlags { bits: mapping_bits_of(attrs_of_word(self.0)) }
    }

    open spec fn spec_set_paddr(self, paddr: usize) -> A32PTE {
        A32PTE(with_paddr(self.0, spec_low32(paddr)))
    }

    open spec fn spec_set_flags(self, flags: MappingFlags, is_huge: bool) -> A32PTE {
        Self::spec_new_page(self.spec_paddr(), flags, is_huge)
    }

    open spec fn spec_bits(self) -> usize {
        self.0 as usize
    }

    open spec fn spec_is_unused(self) -> bool {
        self.0 == 0
    }

    open spec fn spec_is_present(self) -> bool {
        self.0 & TYPE_MASK != 0
    }

    open spec fn spec_is_huge(self) -> bool {
        self.0 & TYPE_MASK == SECTION
    }

    open spec fn spec_short() -> bool {
        true
    }

    open spec fn spec_holds_table(paddr: usize) -> bool {
        paddr as u64 & 0xffff_fc00 == paddr as u64
    }

    open spec fn spec_holds_page(paddr: usize, is_huge: bool) -> bool {
        if is_huge {
            paddr as u64 & 0xfff0_0000 == paddr as u64
        } else {
            paddr as u64 & 0xffff_f000 == paddr as u64
        }
    }

    fn from_raw(raw: u64) -> (r: A32PTE) {
        assert(raw & 0xffff_ffff <= 0xffff_ffff) by (bit_vector);
        A32PTE((raw & 0xffff_ffff) as u32)
    }

    fn raw(self) -> (r: u64) {
        self.0 as u64
    }

    fn new_page(paddr: usize, flags: MappingFlags, is_huge: bool) -> (r: A32PTE) {
        if is_huge {
            // 1MB Section
            Self::new_section(paddr, flags)
        } else {
            // 4KB Small Page
            Self::new_small_page(paddr, flags)
        }
    }

    fn new_table(paddr: usize) -> (r: A32PTE) {
        // Page Table descriptor (L1 -> L2)
        A32PTE(PAGE_TABLE | (low32(paddr) & PAGE_TABLE_ADDR_MASK))
    }

    fn paddr(&self) -> (r: usize) {
        let desc_type = self.descriptor_type();
        let addr: u32 = if desc_type == PAGE_TABLE {
            self.0 & PAGE_TABLE_ADDR_MASK
        } else if desc_type == SECTION {
            self.0 & SECTION_ADDR_MASK
        } else if desc_type == SMALL_PAGE {
            self.0 & SMALL_PAGE_ADDR_MASK
        } else {
            0
        };
        addr as usize
    }

    fn flags(&self) -> (r: MappingFlags) {
        if self.descriptor_type() == SMALL_PAGE {
            MappingFlags::from(
                DescriptorAttr::from_bits_retain(DescriptorAttr::from_small_page(self.0 & 0xfff)),
            )
        } else {
            MappingFlags::from(DescriptorAttr::from_bits_truncate(self.0))
        }
    }

    fn set_paddr(&mut self, paddr: usize) {
        let desc_type = self.descriptor_type();
        let p: u32 = low32(paddr);
        if desc_type == PAGE_TABLE {
            self.0 = (self.0 & !PAGE_TABLE_ADDR_MASK) | (p & PAGE_TABLE_ADDR_MASK);
        } else if desc_type == SECTION {
            self.0 = (self.0 & !SECTION_ADDR_MASK) | (p & SECTION_ADDR_MASK);
        } else if desc_type == SMALL_PAGE {
            self.0 = (self.0 & !SMALL_PAGE_ADDR_MASK) | (p & SMALL_PAGE_ADDR_MASK);
        }
    }

    fn set_flags(&mut self, flags: MappingFlags, is_huge: bool) {
        let paddr = self.paddr();
        *self = if is_huge {
            Self::new_section(paddr, flags)
        } else {
            Self::new_small_page(paddr, flags)
        };
    }

    fn bits(self) -> (r: usize) {
        self.0 as usize
    }

    fn is_unused(&self) -> (r: bool) {
        self.0 == 0
    }

    fn is_present(&self) -> (r: bool) {
        self.descriptor_type() != 0
    }

    fn is_huge(&self) -> (r: bool) {
        self.is_section()
    }

    fn clear(&mut self) {
        self.0 = 0;
    }

    proof fn lemma_raw(e: A32PTE) {
        let w: u32 = e.0;
        assert(((w as u64) & 0xffff_ffff) as u32 == w) by (bit_vector);
    }

    proof fn lemma_zero() {
        let z: u32 = ((0u64 & 0xffff_ffff) as u32);
        assert(z == 0 && !(z & TYPE_MASK != 0) && !(z & TYPE_MASK == SECTION) && paddr_of_word(z)
            == 0) by (bit_vector)
            requires
                z == ((0u64 & 0xffff_ffff) as u32),
        ;
    }

    proof fn lemma_new_table(paddr: usize) {
        let p: u64 = paddr as u64;
        let q: u32 = spec_low32(paddr);
        let w: u32 = PAGE_TABLE | (q & PAGE_TABLE_ADDR_MASK);
        assert(p & 0xffff_fc00 == p ==> !(w & TYPE_MASK == SECTION) && paddr_of_word(w) as u64
            == p) by (bit_vector)
            requires
                q == (p & 0xffff_ffff) as u32,
                w == PAGE_TABLE | (q & PAGE_TABLE_ADDR_MASK),
        ;
    }

    proof fn lemma_new_page(paddr: usize, flags: MappingFlags, is_huge: bool) {
        let p: u64 = paddr as u64;
        let q: u32 = spec_low32(paddr);
        let m: usize = flags.bits;
        let sa: u32 = section_attr_of(m);
        let pa: u32 = small_page_attr_of(m);
        let q0: u32 = spec_low32(0);
        assert(q0 == 0) by (bit_vector)
            requires
                q0 == (0u64 & 0xffff_ffff) as u32,
        ;
        let ws: u32 = sa | (q & SECTION_ADDR_MASK);
        let wp: u32 = pa | (q & SMALL_PAGE_ADDR_MASK);
        let wp0: u32 = pa | (0u32 & SMALL_PAGE_ADDR_MASK);
        assert(m != 0 ==> ws & TYPE_MASK != 0 && wp & TYPE_MASK != 0 && (ws & TYPE_MASK
            == SECTION) && !(wp & TYPE_MASK == SECTION) && mapping_bits_of(attrs_of_word(ws))
            == mapping_bits_of(attrs_of_word(wp0)) && mapping_bits_of(attrs_of_word(wp))
            == mapping_bits_of(attrs_of_word(wp0))) by (bit_vector)
            requires
                sa == section_attr_of(m),
                pa == small_page_attr_of(m),
                ws == sa | (q & SECTION_ADDR_MASK),
                wp == pa | (q & SMALL_PAGE_ADDR_MASK),
                wp0 == pa | (0u32 & SMALL_PAGE_ADDR_MASK),
        ;
        assert(m != 0 ==> (p & 0xfff0_0000 == p ==> paddr_of_word(ws) as u64 == p) && (p
            & 0xffff_f000 == p ==> paddr_of_word(wp) as u64 == p)) by (bit_vector)
            requires
                q == (p & 0xffff_ffff) as u32,
                sa == section_attr_of(m),
                pa == small_page_attr_of(m),
                ws == sa | (q & SECTION_ADDR_MASK),
                wp == pa | (q & SMALL_PAGE_ADDR_MASK),
        ;
    }

    proof fn lemma_set_flags(e: A32PTE, flags: MappingFlags, is_huge: bool) {
        Self::lemma_new_page(e.spec_paddr(), flags, is_huge);
    }

    proof fn lemma_set_paddr(e: A32PTE, paddr: usize) {
        let w: u32 = e.0;
        let q: u32 = spec_low32(paddr);
        let a: u32 = with_paddr(w, q);
        let p: u64 = paddr as u64;
        assert(a & TYPE_MASK == w & TYPE_MASK && (w
            & TYPE_MASK != 0 && (if w & TYPE_MASK == SECTION {
            p & 0xfff0_0000 == p
        } else {
            p & 0xffff_f000 == p
        }) ==> paddr_of_word(a) as u64 == p)) by (bit_vector)
            requires
                q == (p & 0xffff_ffff) as u32,
                a == with_paddr(w, q),
        ;
    }

    proof fn lemma_round_trip(flags: MappingFlags) {
        let m: usize = flags.bits;
        let q0: u32 = spec_low32(0);
        assert(q0 == 0) by (bit_vector)
            requires
                q0 == (0u64 & 0xffff_ffff) as u32,
        ;
        let w: u32 = small_page_attr_of(m) | (q0 & SMALL_PAGE_ADDR_MASK);
        let g: usize = mapping_bits_of(attrs_of_word(w));
        let w2: u32 = small_page_attr_of(g) | (q0 & SMALL_PAGE_ADDR_MASK);
        assert(mapping_bits_of(attrs_of_word(w2)) == g && paddr_of_word(w2) == 0 && !(w2
            & TYPE_MASK == SECTION)) by (bit_vector)
            requires
                q0 == 0,
                w == small_page_attr_of(m) | (q0 & SMALL_PAGE_ADDR_MASK),
                g == mapping_bits_of(attrs_of_word(w)),
                w2 == small_page_attr_of(g) | (q0 & SMALL_PAGE_ADDR_MASK),
        ;
    }

    proof fn lemma_holds_low(paddr: usize) {
        let p: u64 = paddr as u64;
        assert(p % 0x1000 == 0 && p <= 0xffff_f000 ==> p & 0xffff_fc00 == p) by (bit_vector);
    }

    proof fn lemma_short(e: A32PTE) {
    }

    proof fn lemma_present(e: A32PTE) {
        let w: u32 = e.0;
        assert(w & TYPE_MASK != 0 ==> w != 0) by (bit_vector);
    }
}

} // verus!
