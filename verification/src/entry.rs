//! Page table entries: the generic permission vector and the interface that
//! every architecture's descriptor type offers.

use vstd::prelude::*;

pub mod arm;
pub mod loongarch64;
pub mod x86_64;

verus! {

/// Generic page table entry flags that indicate the corresponding mapped
/// memory region permissions and attributes.
#[derive(Clone, Copy, PartialEq, Eq, Structural, Debug)]
pub struct MappingFlags {
    /// The raw bits; only the low six are named.
    pub bits: usize,
}

/// Bit of [`MappingFlags::read`].
pub const READ_BIT: usize = 1;

/// Bit of [`MappingFlags::write`].
pub const WRITE_BIT: usize = 2;

/// Bit of [`MappingFlags::execute`].
pub const EXECUTE_BIT: usize = 4;

/// Bit of [`MappingFlags::user`].
pub const USER_BIT: usize = 8;

/// Bit of [`MappingFlags::device`].
pub const DEVICE_BIT: usize = 16;

/// Bit of [`MappingFlags::uncached`].
pub const UNCACHED_BIT: usize = 32;

/// All named bits.
pub const ALL_BITS: usize = 63;

impl MappingFlags {
    /// The value that [`MappingFlags::empty`] returns.
    pub open spec fn spec_empty() -> MappingFlags {
        MappingFlags { bits: 0 }
    }

    /// The value that [`MappingFlags::read`] returns.
    pub open spec fn spec_read() -> MappingFlags {
        MappingFlags { bits: READ_BIT }
    }

    /// The value that [`MappingFlags::write`] returns.
    pub open spec fn spec_write() -> MappingFlags {
        MappingFlags { bits: WRITE_BIT }
    }

    /// The value that [`MappingFlags::execute`] returns.
    pub open spec fn spec_execute() -> MappingFlags {
        MappingFlags { bits: EXECUTE_BIT }
    }

    /// The value that [`MappingFlags::user`] returns.
    pub open spec fn spec_user() -> MappingFlags {
        MappingFlags { bits: USER_BIT }
    }

    /// The value that [`MappingFlags::device`] returns.
    pub open spec fn spec_device() -> MappingFlags {
        MappingFlags { bits: DEVICE_BIT }
    }

    /// The value that [`MappingFlags::uncached`] returns.
    pub open spec fn spec_uncached() -> MappingFlags {
        MappingFlags { bits: UNCACHED_BIT }
    }

    /// Whether no bit is set.
    pub open spec fn spec_is_empty(&self) -> bool {
        self.bits == 0
    }

    /// Whether every bit of `other` is set in `self`.
    pub open spec fn spec_contains(&self, other: MappingFlags) -> bool {
        self.bits & other.bits == other.bits
    }

    /// The flags set in `self` or in `other`.
    pub open spec fn spec_union(self, other: MappingFlags) -> MappingFlags {
        MappingFlags { bits: self.bits | other.bits }
    }

    /// No permission at all.
    #[verifier::when_used_as_spec(spec_empty)]
    pub fn empty() -> (r: MappingFlags)
        ensures
            r == Self::spec_empty(),
    {
        MappingFlags { bits: 0 }
    }

    /// The memory is readable.
    #[verifier::when_used_as_spec(spec_read)]
    pub fn read() -> (r: MappingFlags)
        ensures
            r == Self::spec_read(),
    {
        MappingFlags { bits: READ_BIT }
    }

    /// The memory is writable.
    #[verifier::when_used_as_spec(spec_write)]
    pub fn write() -> (r: MappingFlags)
        ensures
            r == Self::spec_write(),
    {
        MappingFlags { bits: WRITE_BIT }
    }

    /// The memory is executable.
    #[verifier::when_used_as_spec(spec_execute)]
    pub fn execute() -> (r: MappingFlags)
        ensures
            r == Self::spec_execute(),
    {
        MappingFlags { bits: EXECUTE_BIT }
    }

    /// The memory is user accessible.
    #[verifier::when_used_as_spec(spec_user)]
    pub fn user() -> (r: MappingFlags)
        ensures
            r == Self::spec_user(),
    {
        MappingFlags { bits: USER_BIT }
    }

    /// The memory is device memory.
    #[verifier::when_used_as_spec(spec_device)]
    pub fn device() -> (r: MappingFlags)
        ensures
            r == Self::spec_device(),
    {
        MappingFlags { bits: DEVICE_BIT }
    }

    /// The memory is uncached.
    #[verifier::when_used_as_spec(spec_uncached)]
    pub fn uncached() -> (r: MappingFlags)
        ensures
            r == Self::spec_uncached(),
    {
        MappingFlags { bits: UNCACHED_BIT }
    }

    /// The raw bits.
    pub fn bits(&self) -> (r: usize)
        ensures
            r == self.bits,
    {
        self.bits
    }

    /// Keeps the named bits of `bits` and drops the others.
    pub fn from_bits_truncate(bits: usize) -> (r: MappingFlags)
        ensures
            r.bits == bits & ALL_BITS,
    {
        MappingFlags { bits: bits & ALL_BITS }
    }

    /// Whether no bit is set.
    #[verifier::when_used_as_spec(spec_is_empty)]
    pub fn is_empty(&self) -> (r: bool)
        ensures
            r == self.spec_is_empty(),
    {
        self.bits == 0
    }

    /// Whether every bit of `other` is set in `self`.
    #[verifier::when_used_as_spec(spec_contains)]
    pub fn contains(&self, other: MappingFlags) -> (r: bool)
        ensures
            r == self.spec_contains(other),
    {
        self.bits & other.bits == other.bits
    }

    /// The flags set in `self` or in `other`.
    #[verifier::when_used_as_spec(spec_union)]
    pub fn union(self, other: MappingFlags) -> (r: MappingFlags)
        ensures
            r == self.spec_union(other),
    {
        MappingFlags { bits: self.bits | other.bits }
    }
}

impl core::ops::BitOr for MappingFlags {
    type Output = MappingFlags;

    fn bitor(self, rhs: MappingFlags) -> (r: MappingFlags) {
        MappingFlags { bits: self.bits | rhs.bits }
    }
}

impl vstd::std_specs::ops::BitOrSpecImpl for MappingFlags {
    open spec fn obeys_bitor_spec() -> bool {
        true
    }

    open spec fn bitor_req(self, rhs: MappingFlags) -> bool {
        true
    }

    open spec fn bitor_spec(self, rhs: MappingFlags) -> MappingFlags {
        self.spec_union(rhs)
    }
}

/// A generic page table entry.
///
/// All architecture-specific page table entry types implement this trait.
/// Each method has a specification function of the same name with `spec_` in
/// front, and the laws at the end are what the tree engines rely on.
pub trait GenericPTE: Sized + Copy {
    /// The descriptor as it lies in a table frame.
    spec fn spec_raw(self) -> u64;

    /// The descriptor that a word of a table frame holds.
    spec fn spec_from_raw(raw: u64) -> Self;

    /// The descriptor that [`GenericPTE::new_page`] makes.
    spec fn spec_new_page(paddr: usize, flags: MappingFlags, is_huge: bool) -> Self;

    /// The descriptor that [`GenericPTE::new_table`] makes.
    spec fn spec_new_table(paddr: usize) -> Self;

    /// The physical address that the descriptor holds.
    spec fn spec_paddr(self) -> usize;

    /// The permissions that the descriptor grants.
    spec fn spec_flags(self) -> MappingFlags;

    /// The descriptor after [`GenericPTE::set_paddr`].
    spec fn spec_set_paddr(self, paddr: usize) -> Self;

    /// The descriptor after [`GenericPTE::set_flags`].
    spec fn spec_set_flags(self, flags: MappingFlags, is_huge: bool) -> Self;

    /// The raw bits as a machine word.
    spec fn spec_bits(self) -> usize;

    /// Whether the descriptor is zero.
    spec fn spec_is_unused(self) -> bool;

    /// Whether the descriptor is marked present.
    spec fn spec_is_present(self) -> bool;

    /// Whether the descriptor maps a huge frame.
    spec fn spec_is_huge(self) -> bool;

    /// Whether a descriptor is 32 bits wide, so that two of them share a
    /// word of a frame.
    spec fn spec_short() -> bool;

    /// Whether a table descriptor can hold `paddr` without loss.
    spec fn spec_holds_table(paddr: usize) -> bool;

    /// Whether a page descriptor can hold `paddr` without loss.
    spec fn spec_holds_page(paddr: usize, is_huge: bool) -> bool;

    /// Reads a descriptor from a word of a table frame.
    fn from_raw(raw: u64) -> (r: Self)
        ensures
            r == Self::spec_from_raw(raw),
    ;

    /// The word to store in a table frame.
    fn raw(self) -> (r: u64)
        ensures
            r == self.spec_raw(),
    ;

    /// Creates a page table entry point to a terminate page or block.
    fn new_page(paddr: usize, flags: MappingFlags, is_huge: bool) -> (r: Self)
        ensures
            r == Self::spec_new_page(paddr, flags, is_huge),
    ;

    /// Creates a page table entry point to a next level page table.
    fn new_table(paddr: usize) -> (r: Self)
        ensures
            r == Self::spec_new_table(paddr),
    ;

    /// Returns the physical address mapped by this entry.
    fn paddr(&self) -> (r: usize)
        ensures
            r == self.spec_paddr(),
    ;

    /// Returns the flags of this entry.
    fn flags(&self) -> (r: MappingFlags)
        ensures
            r == self.spec_flags(),
    ;

    /// Set mapped physical address of the entry.
    fn set_paddr(&mut self, paddr: usize)
        ensures
            *final(self) == old(self).spec_set_paddr(paddr),
    ;

    /// Set flags of the entry.
    fn set_flags(&mut self, flags: MappingFlags, is_huge: bool)
        ensures
            *final(self) == old(self).spec_set_flags(flags, is_huge),
    ;

    /// Returns the raw bits of this entry.
    fn bits(self) -> (r: usize)
        ensures
            r == self.spec_bits(),
    ;

    /// Returns whether this entry is zero.
    fn is_unused(&self) -> (r: bool)
        ensures
            r == self.spec_is_unused(),
    ;

    /// Returns whether this entry flag indicates present.
    fn is_present(&self) -> (r: bool)
        ensures
            r == self.spec_is_present(),
    ;

    /// For non-last level translation, returns whether this entry maps to a
    /// huge frame.
    fn is_huge(&self) -> (r: bool)
        ensures
            r == self.spec_is_huge(),
    ;

    /// Set this entry to zero.
    fn clear(&mut self)
        ensures
            final(self).spec_raw() == 0,
    ;

    /// A descriptor is its word, and it is unused exactly when the word is
    /// zero.
    proof fn lemma_raw(e: Self)
        ensures
            Self::spec_from_raw(e.spec_raw()) == e,
            e.spec_is_unused() <==> e.spec_raw() == 0,
    ;

    /// The zero word is neither present nor huge and holds address zero.
    proof fn lemma_zero()
        ensures
            Self::spec_from_raw(0).spec_raw() == 0,
            !Self::spec_from_raw(0).spec_is_present(),
            !Self::spec_from_raw(0).spec_is_huge(),
            Self::spec_from_raw(0).spec_paddr() == 0,
    ;

    /// A table descriptor gives back the address it was made with and is not
    /// huge.
    proof fn lemma_new_table(paddr: usize)
        requires
            Self::spec_holds_table(paddr),
        ensures
            Self::spec_new_table(paddr).spec_paddr() == paddr,
            !Self::spec_new_table(paddr).spec_is_huge(),
    ;

    /// A page descriptor made with some permission is present, is huge as
    /// asked, grants what a small page at address zero with the same flags
    /// grants, and gives back an address that it can hold.
    proof fn lemma_new_page(paddr: usize, flags: MappingFlags, is_huge: bool)
        requires
            !flags.spec_is_empty(),
        ensures
            Self::spec_new_page(paddr, flags, is_huge).spec_is_present(),
            Self::spec_new_page(paddr, flags, is_huge).spec_is_huge() == is_huge,
            Self::spec_new_page(paddr, flags, is_huge).spec_flags() == Self::spec_new_page(
                0,
                flags,
                false,
            ).spec_flags(),
            Self::spec_holds_page(paddr, is_huge) ==> Self::spec_new_page(
                paddr,
                flags,
                is_huge,
            ).spec_paddr() == paddr,
    ;

    /// Setting some permission leaves a descriptor present and huge as
    /// asked, with the permissions that a new page gets, and with its
    /// address where a page descriptor of that kind can hold it.
    proof fn lemma_set_flags(e: Self, flags: MappingFlags, is_huge: bool)
        requires
            !flags.spec_is_empty(),
        ensures
            e.spec_set_flags(flags, is_huge).spec_is_present(),
            e.spec_set_flags(flags, is_huge).spec_is_huge() == is_huge,
            e.spec_set_flags(flags, is_huge).spec_flags() == Self::spec_new_page(
                0,
                flags,
                false,
            ).spec_flags(),
            Self::spec_holds_page(e.spec_paddr(), is_huge) ==> e.spec_set_flags(
                flags,
                is_huge,
            ).spec_paddr() == e.spec_paddr(),
    ;

    /// Setting the address of a descriptor leaves it present and huge as it
    /// was, and a present descriptor then holds every address that a page
    /// descriptor of its kind can hold.
    proof fn lemma_set_paddr(e: Self, paddr: usize)
        ensures
            e.spec_set_paddr(paddr).spec_is_huge() == e.spec_is_huge(),
            e.spec_set_paddr(paddr).spec_is_present() == e.spec_is_present(),
            e.spec_is_present() && Self::spec_holds_page(paddr, e.spec_is_huge())
                ==> e.spec_set_paddr(paddr).spec_paddr() == paddr,
    ;

    /// Decoding is the inverse of encoding on what decoding gives: the
    /// permissions that a small page at address zero grants, encoded again
    /// for address zero, give a descriptor with the same permissions and
    /// address zero that is not huge.
    proof fn lemma_round_trip(flags: MappingFlags)
        ensures
            ({
                let granted = Self::spec_new_page(0, flags, false).spec_flags();
                let again = Self::spec_new_page(0, granted, false);
                &&& again.spec_flags() == granted
                &&& again.spec_paddr() == 0
                &&& !again.spec_is_huge()
            }),
    ;

    /// A table descriptor can hold the address of every frame in the first
    /// four gigabytes.
    proof fn lemma_holds_low(paddr: usize)
        requires
            paddr % 0x1000 == 0,
            paddr <= 0xffff_f000,
        ensures
            Self::spec_holds_table(paddr),
    ;

    /// A short descriptor fits in 32 bits.
    proof fn lemma_short(e: Self)
        ensures
            Self::spec_short() ==> e.spec_raw() <= 0xffff_ffff,
    ;

    /// A present descriptor is not zero.
    proof fn lemma_present(e: Self)
        ensures
            e.spec_is_present() ==> !e.spec_is_unused(),
    ;
}

} // verus!
