//! Page tables of three or four levels that can share the tables of a range
//! of virtual addresses with the trees that are copied from them.

use vstd::prelude::*;
use core::marker::PhantomData;
use crate::{PageSize, PagingError, PagingMetaData, TlbFlush, TlbFlushAll};
use crate::bits32::{flushed_by_page, outcome_of, pages_to_flush};
use crate::borrowed::{marked, slots_get, slots_new, slots_set, BorrowedSlots};
use crate::entry::{GenericPTE, MappingFlags};
use crate::handler::{frames_well_formed, PagingHandler};
use crate::owned64::TableNode;
use crate::region64::{
    map_region_outcome, map_region_pages, protect_region_outcome, protect_region_pages,
    unmap_region_outcome, unmap_region_pages, RegionStep,
};
use crate::shared64::{range_aligned, shared_map_outcome, shared_map_page, spec_range_aligned, SharedTables};
use crate::visit64::{spec_walk, walk_recursive, WalkVisit};
use crate::walk64::{
    spec_next_table,
    frames_fit, map_outcome, mapped_by,
    entry_at, frames_freed, get_entry, locate, next_table, p3_index, p4_index, page_entry,
    protect_outcome, protect_page, read_entry, remap_outcome, remap_page, spec_p3_index,
    spec_p4_index, spec_wrapping_sum, unmap_outcome, unmap_page, wrapping_sum, ENTRY_COUNT,
};

verus! {

/// A generic page table struct for 64-bit platform that may share tables.
///
/// It holds the address of the root table, the range of virtual addresses
/// whose tables are shared, whether the tables for the range were made, and
/// the slots of the root table that are on loan from another tree.
/// The table frames lie with the handler, which every operation takes as an
/// argument. The frames for shared tables come from the same handler as all
/// the others; the second handler type only names where they would come
/// from.
pub struct EqPageTable64Ext<M: PagingMetaData, PTE: GenericPTE, H: PagingHandler, SH: PagingHandler> {
    root_paddr: usize,
    shared: SharedTables,
    borrowed_entries: BorrowedSlots,
    _phantom: PhantomData<(M, PTE, H, SH)>,
}

/// What a query of `vaddr` answers for the descriptor `entry` that maps a
/// page of `size`. An unused descriptor maps nothing.
pub open spec fn translation<PTE: GenericPTE>(entry: PTE, size: PageSize, vaddr: usize) -> Result<
    (usize, MappingFlags, PageSize),
    PagingError,
> {
    if entry.spec_is_unused() {
        Err(PagingError::NotMapped)
    } else {
        Ok(
            (
                spec_wrapping_sum(entry.spec_paddr(), (vaddr % size.spec_bytes()) as usize),
                entry.spec_flags(),
                size,
            ),
        )
    }
}

/// What a query of `vaddr` answers in the tree at `root`.
pub open spec fn spec_query<PTE: GenericPTE>(
    frames: Map<usize, Seq<u64>>,
    root: usize,
    levels: usize,
    vaddr: usize,
) -> Result<(usize, MappingFlags, PageSize), PagingError> {
    match locate::<PTE>(frames, root, levels, vaddr) {
        Ok((slot, size)) => translation(
            entry_at::<PTE>(frames, slot.table, slot.index).unwrap(),
            size,
            vaddr,
        ),
        Err(err) => Err(err),
    }
}

/// What unmapping returns without the permissions.
pub open spec fn without_flags(r: Result<(usize, MappingFlags, PageSize), PagingError>) -> Result<
    (usize, PageSize),
    PagingError,
> {
    match r {
        Ok((paddr, _, size)) => Ok((paddr, size)),
        Err(err) => Err(err),
    }
}

/// The starts of the pages that `steps` edited, each twice, if they are to
/// be flushed page by page, and nothing if not.
pub open spec fn flushed_twice(steps: Seq<RegionStep>, flush_tlb_by_page: bool) -> Seq<usize> {
    if flush_tlb_by_page {
        Seq::new(2 * steps.len(), |k: int| steps[k / 2].vaddr)
    } else {
        Seq::empty()
    }
}

/// What freeing the tables below a table leaves: the frames, and the result.
pub struct FreedOutcome {
    /// The frames that are left.
    pub frames: Map<usize, Seq<u64>>,
    /// The result: an error where a present descriptor of an upper level
    /// points nowhere.
    pub result: Result<(), PagingError>,
}

/// What freeing the tables below the table at `table` leaves, from the
/// descriptor at `index` on. The table is at `level`, and `frames` are the
/// frames before.
///
/// A descriptor that is present, above the last level and not huge points
/// to a table: the tables below that table are freed, and then the table
/// itself. The freeing ends with the error where such a descriptor points
/// nowhere, and it ends without one where the frame of the table is missing.
/// The slots of the root table in `skip` are passed over: what lies below
/// them is on loan from another tree.
#[verifier::opaque]
pub open spec fn spec_freed_below<PTE: GenericPTE>(
    frames: Map<usize, Seq<u64>>,
    levels: usize,
    table: usize,
    level: usize,
    index: usize,
    skip: Set<usize>,
) -> FreedOutcome
    decreases levels - level, ENTRY_COUNT - index,
{
    if index >= ENTRY_COUNT || level >= levels {
        FreedOutcome { frames, result: Ok(()) }
    } else if level == 0 && skip.contains(index) {
        spec_freed_below::<PTE>(frames, levels, table, level, (index + 1) as usize, skip)
    } else {
        match entry_at::<PTE>(frames, table, index) {
            Some(entry) => if entry.spec_is_present() && level < levels - 1
                && !entry.spec_is_huge() {
                match spec_next_table(entry) {
                    Ok(child) => {
                        let below = spec_freed_below::<PTE>(
                            frames,
                            levels,
                            child,
                            (level + 1) as usize,
                            0,
                            skip,
                        );
                        if below.result is Err {
                            below
                        } else {
                            spec_freed_below::<PTE>(
                                below.frames.remove(entry.spec_paddr()),
                                levels,
                                table,
                                level,
                                (index + 1) as usize,
                                skip,
                            )
                        }
                    },
                    Err(err) => FreedOutcome { frames, result: Err(err) },
                }
            } else {
                spec_freed_below::<PTE>(frames, levels, table, level, (index + 1) as usize, skip)
            },
            None => FreedOutcome { frames, result: Ok(()) },
        }
    }
}

/// Freeing the tables below a table from the descriptor at `index` on, case
/// by case.
pub proof fn lemma_freed_below_step<PTE: GenericPTE>(
    frames: Map<usize, Seq<u64>>,
    levels: usize,
    table: usize,
    level: usize,
    index: usize,
    skip: Set<usize>,
)
    requires
        level < levels,
    ensures
        index < ENTRY_COUNT && level == 0 && skip.contains(index) ==> spec_freed_below::<PTE>(
            frames,
            levels,
            table,
            level,
            index,
            skip,
        ) == spec_freed_below::<PTE>(frames, levels, table, level, (index + 1) as usize, skip),
        index >= ENTRY_COUNT ==> spec_freed_below::<PTE>(frames, levels, table, level, index, skip)
            == (FreedOutcome { frames, result: Ok(()) }),
        index < ENTRY_COUNT && !(level == 0 && skip.contains(index)) ==> match entry_at::<PTE>(
            frames,
            table,
            index,
        ) {
            Some(entry) => if entry.spec_is_present() && level < levels - 1
                && !entry.spec_is_huge() {
                match spec_next_table(entry) {
                    Ok(child) => {
                        let below = spec_freed_below::<PTE>(
                            frames,
                            levels,
                            child,
                            (level + 1) as usize,
                            0,
                            skip,
                        );
                        spec_freed_below::<PTE>(frames, levels, table, level, index, skip)
                            == if below.result is Err {
                            below
                        } else {
                            spec_freed_below::<PTE>(
                                below.frames.remove(entry.spec_paddr()),
                                levels,
                                table,
                                level,
                                (index + 1) as usize,
                                skip,
                            )
                        }
                    },
                    Err(err) => spec_freed_below::<PTE>(frames, levels, table, level, index, skip)
                        == (FreedOutcome { frames, result: Err(err) }),
                }
            } else {
                spec_freed_below::<PTE>(frames, levels, table, level, index, skip)
                    == spec_freed_below::<PTE>(
                    frames,
                    levels,
                    table,
                    level,
                    (index + 1) as usize,
                    skip,
                )
            },
            None => spec_freed_below::<PTE>(frames, levels, table, level, index, skip)
                == (FreedOutcome { frames, result: Ok(()) }),
        },
{
    reveal_with_fuel(spec_freed_below, 2);
}

/// Frees the tables below the table at `table`, each after the tables below
/// it, as far as present descriptors point to them. Ends with the error at
/// a present descriptor of an upper level that points nowhere.
#[verifier::rlimit(50)]
pub fn dealloc_below<PTE: GenericPTE, H: PagingHandler>(
    handler: &mut H,
    levels: usize,
    table: usize,
    level: usize,
    on_loan: &BorrowedSlots,
) -> (r: Result<(), PagingError>)
    requires
        old(handler).inv(),
        level < levels,
    ensures
        final(handler).inv(),
        frames_freed(old(handler).frames(), final(handler).frames()),
        final(handler).frames() == spec_freed_below::<PTE>(
            old(handler).frames(),
            levels,
            table,
            level,
            0,
            marked(*on_loan),
        ).frames,
        r == spec_freed_below::<PTE>(old(handler).frames(), levels, table, level, 0, marked(*on_loan)).result,
    decreases levels - level,
{
    let ghost before = handler.frames();
    let ghost skip = marked(*on_loan);
    let ghost total = spec_freed_below::<PTE>(before, levels, table, level, 0, skip);
    let mut i: usize = 0;
    while i < ENTRY_COUNT
        invariant
            handler.inv(),
            level < levels,
            i <= ENTRY_COUNT,
            before == old(handler).frames(),
            skip == marked(*on_loan),
            total == spec_freed_below::<PTE>(before, levels, table, level, 0, skip),
            frames_freed(before, handler.frames()),
            total == spec_freed_below::<PTE>(handler.frames(), levels, table, level, i, skip),
        decreases ENTRY_COUNT - i,
    {
        proof {
            lemma_freed_below_step::<PTE>(handler.frames(), levels, table, level, i, skip);
        }
        if level == 0 && slots_get(on_loan, i) {
            i = i + 1;
            continue ;
        }
        match read_entry::<PTE, H>(handler, table, i) {
            Some(entry) => {
                // don't free the entries in last level, they are not array.
                if entry.is_present() && level < levels - 1 && !entry.is_huge() {
                    let child: usize = match next_table(&entry) {
                        Ok(child) => child,
                        Err(err) => {
                            return Err(err);
                        },
                    };
                    match dealloc_below::<PTE, H>(handler, levels, child, level + 1, on_loan) {
                        Ok(_) => {},
                        Err(err) => {
                            return Err(err);
                        },
                    }
                    crate::handler::free_frame(handler, entry.paddr());
                }
            },
            None => {
                return Ok(());
            },
        }
        i = i + 1;
    }
    proof {
        lemma_freed_below_step::<PTE>(handler.frames(), levels, table, level, i, skip);
    }
    Ok(())
}

impl<
    M: PagingMetaData,
    PTE: GenericPTE,
    H: PagingHandler,
    SH: PagingHandler,
> EqPageTable64Ext<M, PTE, H, SH> {
    /// The physical address of the root table.
    pub closed spec fn spec_root_paddr(&self) -> usize {
        self.root_paddr
    }

    /// What the tree shares.
    pub closed spec fn spec_shared(&self) -> SharedTables {
        self.shared
    }

    /// The slots of the root table that are on loan from another tree.
    pub closed spec fn borrowed(&self) -> Set<usize> {
        marked(self.borrowed_entries)
    }

    /// Whether the architecture has a number of levels that this page table
    /// can walk: three or four.
    pub open spec fn levels_supported() -> bool {
        M::spec_levels() == 3 || M::spec_levels() == 4
    }

    /// The index that the root table has for `vaddr`.
    pub open spec fn spec_root_index(vaddr: usize) -> usize {
        if M::spec_levels() == 3 {
            spec_p3_index(vaddr)
        } else {
            spec_p4_index(vaddr)
        }
    }

    /// A page table for the root table at `root_paddr`, which shares the
    /// tables for `shared_vaddr_range`, a range from its first address to
    /// before its second. Both ends of the range have to be multiples of
    /// 512GB.
    pub fn from_paddr(root_paddr: usize, shared_vaddr_range: Option<(usize, usize)>) -> (r: Result<
        Self,
        PagingError,
    >)
        ensures
            match r {
                Ok(table) => {
                    &&& table.spec_root_paddr() == root_paddr
                    &&& table.spec_shared().range == shared_vaddr_range
                    &&& !table.spec_shared().initialized
                    &&& table.borrowed() == Set::<usize>::empty()
                    &&& match shared_vaddr_range {
                        Some(range) => spec_range_aligned(range),
                        None => true,
                    }
                },
                Err(err) => {
                    &&& err == PagingError::NotAligned
                    &&& shared_vaddr_range is Some
                    &&& !spec_range_aligned(shared_vaddr_range.unwrap())
                },
            },
    {
        match shared_vaddr_range {
            Some(range) => {
                if !range_aligned(range) {
                    return Err(PagingError::NotAligned);
                }
            },
            None => {},
        }
        Ok(
            EqPageTable64Ext {
                root_paddr,
                shared: SharedTables { range: shared_vaddr_range, initialized: false },
                borrowed_entries: slots_new(),
                _phantom: PhantomData,
            },
        )
    }

    /// Returns the physical address of the root page table.
    pub fn root_paddr(&self) -> (r: usize)
        ensures
            r == self.spec_root_paddr(),
    {
        self.root_paddr
    }

    /// Maps a virtual page to a physical frame with the given `page_size`
    /// and mapping `flags`.
    ///
    /// The virtual page starts with `vaddr`, amd the physical frame starts with
    /// `target`. If the addresses is not aligned to the page size, they will be
    /// aligned down automatically.
    ///
    /// Returns [`Err(PagingError::AlreadyMapped)`](PagingError::AlreadyMapped)
    /// if the mapping is already present.
    pub fn map(
        &mut self,
        handler: &mut H,
        vaddr: usize,
        target: usize,
        page_size: PageSize,
        flags: MappingFlags,
    ) -> (r: Result<TlbFlush<M>, PagingError>)
        requires
            old(handler).inv(),
            Self::levels_supported(),
            page_size != PageSize::Size1M,
        ensures
            final(handler).inv(),
            final(self).spec_root_paddr() == old(self).spec_root_paddr(),
            final(self).spec_shared().range == old(self).spec_shared().range,
            final(self).borrowed() == old(self).borrowed(),
            exists|mid: Map<usize, Seq<u64>>| #[trigger]
                shared_map_outcome::<PTE>(
                    old(handler).frames(),
                    mid,
                    final(handler).frames(),
                    old(self).spec_root_paddr(),
                    M::spec_levels(),
                    old(self).spec_shared(),
                    final(self).spec_shared().initialized,
                    vaddr,
                    page_entry::<PTE>(target, page_size, flags),
                    page_size,
                    outcome_of(r),
                ),
            match r {
                Ok(tlb) => tlb.spec_vaddr() == vaddr,
                Err(_) => true,
            },
    {
        let ghost before = handler.frames();
        let mut nodes = Ghost(Map::<usize, TableNode>::empty());
        let done = shared_map_page::<PTE, H>(
            handler,
            self.root_paddr,
            M::levels(),
            &mut self.shared,
            vaddr,
            target,
            page_size,
            flags,
            Ghost(Set::<usize>::empty()),
            &mut nodes,
        );
        let r: Result<TlbFlush<M>, PagingError> = match done {
            Ok(_) => Ok(TlbFlush::new(vaddr)),
            Err(err) => Err(err),
        };
        proof {
            match done {
                Ok(unit) => {
                    assert(unit == ());
                },
                Err(_) => {},
            }
            assert(outcome_of(r) == done);
            let page = page_entry::<PTE>(target, page_size, flags);
            let mid = choose|mid: Map<usize, Seq<u64>>| #[trigger]
                shared_map_outcome::<PTE>(
                    before,
                    mid,
                    handler.frames(),
                    old(self).spec_root_paddr(),
                    M::spec_levels(),
                    old(self).spec_shared(),
                    self.spec_shared().initialized,
                    vaddr,
                    page,
                    page_size,
                    done,
                );
            assert(shared_map_outcome::<PTE>(
                before,
                mid,
                handler.frames(),
                old(self).spec_root_paddr(),
                M::spec_levels(),
                old(self).spec_shared(),
                self.spec_shared().initialized,
                vaddr,
                page,
                page_size,
                outcome_of(r),
            ));
        }
        r
    }

    /// Remap the mapping starts with `vaddr`, updates both the physical address
    /// and flags.
    ///
    /// Returns the page size of the mapping.
    ///
    /// Returns [`Err(PagingError::NotMapped)`](PagingError::NotMapped) if the
    /// intermediate level tables of the mapping is not present.
    pub fn remap(&mut self, handler: &mut H, vaddr: usize, paddr: usize, flags: MappingFlags) -> (r:
        Result<(PageSize, TlbFlush<M>), PagingError>)
        requires
            old(handler).inv(),
            Self::levels_supported(),
        ensures
            final(handler).inv(),
            *final(self) == *old(self),
            remap_outcome::<PTE>(
                old(handler).frames(),
                final(handler).frames(),
                old(self).spec_root_paddr(),
                M::spec_levels(),
                vaddr,
                paddr,
                flags,
                match r {
                    Ok((size, _)) => Ok(size),
                    Err(err) => Err(err),
                },
            ),
            match r {
                Ok((_, tlb)) => tlb.spec_vaddr() == vaddr,
                Err(_) => true,
            },
    {
        let size = remap_page::<PTE, H>(handler, self.root_paddr, M::levels(), vaddr, paddr, flags)?;
        Ok((size, TlbFlush::new(vaddr)))
    }

    /// Updates the flags of the mapping starts with `vaddr`.
    ///
    /// Returns the page size of the mapping.
    ///
    /// Returns [`Err(PagingError::NotMapped)`](PagingError::NotMapped) if the
    /// mapping is not present.
    pub fn protect(&mut self, handler: &mut H, vaddr: usize, flags: MappingFlags) -> (r: Result<
        (PageSize, TlbFlush<M>),
        PagingError,
    >)
        requires
            old(handler).inv(),
            Self::levels_supported(),
        ensures
            final(handler).inv(),
            *final(self) == *old(self),
            protect_outcome::<PTE>(
                old(handler).frames(),
                final(handler).frames(),
                old(self).spec_root_paddr(),
                M::spec_levels(),
                vaddr,
                flags,
                match r {
                    Ok((size, _)) => Ok(size),
                    Err(err) => Err(err),
                },
            ),
            match r {
                Ok((_, tlb)) => tlb.spec_vaddr() == vaddr,
                Err(_) => true,
            },
    {
        let size = protect_page::<PTE, H>(handler, self.root_paddr, M::levels(), vaddr, flags)?;
        Ok((size, TlbFlush::new(vaddr)))
    }

    /// Unmaps the mapping starts with `vaddr`.
    ///
    /// Returns [`Err(PagingError::NotMapped)`](PagingError::NotMapped) if the
    /// mapping is not present.
    pub fn unmap(&mut self, handler: &mut H, vaddr: usize) -> (r: Result<
        (usize, PageSize, TlbFlush<M>),
        PagingError,
    >)
        requires
            old(handler).inv(),
            Self::levels_supported(),
        ensures
            final(handler).inv(),
            *final(self) == *old(self),
            exists|unmapped: Result<(usize, MappingFlags, PageSize), PagingError>|
                {
                    &&& #[trigger] unmap_outcome::<PTE>(
                        old(handler).frames(),
                        final(handler).frames(),
                        old(self).spec_root_paddr(),
                        M::spec_levels(),
                        vaddr,
                        unmapped,
                    )
                    &&& without_flags(unmapped) == match r {
                        Ok((paddr, size, _)) => Ok::<(usize, PageSize), PagingError>((paddr, size)),
                        Err(err) => Err::<(usize, PageSize), PagingError>(err),
                    }
                },
            match r {
                Ok((_, _, tlb)) => tlb.spec_vaddr() == vaddr,
                Err(_) => true,
            },
    {
        let ghost before = handler.frames();
        let unmapped = unmap_page::<PTE, H>(handler, self.root_paddr, M::levels(), vaddr);
        assert(unmap_outcome::<PTE>(
            before,
            handler.frames(),
            old(self).spec_root_paddr(),
            M::spec_levels(),
            vaddr,
            unmapped,
        ));
        match unmapped {
            Ok((paddr, _, size)) => Ok((paddr, size, TlbFlush::new(vaddr))),
            Err(err) => Err(err),
        }
    }

    /// Queries the result of the mapping starts with `vaddr`.
    ///
    /// Returns the physical address of the target frame, mapping flags, and
    /// the page size.
    ///
    /// Returns [`Err(PagingError::NotMapped)`](PagingError::NotMapped) if the
    /// mapping is not present.
    pub fn query(&self, handler: &H, vaddr: usize) -> (r: Result<
        (usize, MappingFlags, PageSize),
        PagingError,
    >)
        requires
            handler.inv(),
            Self::levels_supported(),
        ensures
            r == spec_query::<PTE>(
                handler.frames(),
                self.spec_root_paddr(),
                M::spec_levels(),
                vaddr,
            ),
    {
        let (_, entry, size) = get_entry::<PTE, H>(handler, self.root_paddr, M::levels(), vaddr)?;
        if entry.is_unused() {
            return Err(PagingError::NotMapped);
        }
        let off: usize = size.align_offset(vaddr);
        Ok((wrapping_sum(entry.paddr(), off), entry.flags(), size))
    }

    /// Maps a contiguous virtual memory region to a contiguous physical memory
    /// region with the given mapping `flags`.
    ///
    /// The virtual and physical memory regions start with `vaddr` and `paddr`
    /// respectively. The region size is `size`. The addresses and `size` must
    /// be aligned to 4K, otherwise it will return [`Err(PagingError::NotAligned)`].
    ///
    /// When `allow_huge` is true, it will try to map the region with huge pages
    /// if possible. Otherwise, it will map the region with 4K pages.
    ///
    /// When `flush_tlb_by_page` is true, the start of each page that was
    /// mapped is returned twice, in order, for the caller to flush now.
    /// Otherwise, nothing is returned for that, and the TLB flush is left to
    /// the token.
    ///
    /// [`Err(PagingError::NotAligned)`]: PagingError::NotAligned
    pub fn map_region<F: Fn(usize) -> usize>(
        &mut self,
        handler: &mut H,
        vaddr: usize,
        get_paddr: F,
        size: usize,
        flags: MappingFlags,
        allow_huge: bool,
        flush_tlb_by_page: bool,
    ) -> (r: (Vec<usize>, Result<TlbFlushAll<M>, PagingError>))
        requires
            old(handler).inv(),
            Self::levels_supported(),
            vaddr + size <= usize::MAX,
            forall|v: usize| get_paddr.requires((v,)),
        ensures
            final(handler).inv(),
            final(self).spec_root_paddr() == old(self).spec_root_paddr(),
            final(self).spec_shared().range == old(self).spec_shared().range,
            final(self).borrowed() == old(self).borrowed(),
            exists|steps: Seq<RegionStep>|
                {
                    &&& #[trigger] map_region_outcome::<PTE, F>(
                        old(handler).frames(),
                        final(handler).frames(),
                        old(self).spec_root_paddr(),
                        M::spec_levels(),
                        vaddr,
                        get_paddr,
                        size,
                        flags,
                        allow_huge,
                        old(self).spec_shared().range,
                        steps,
                        outcome_of(r.1),
                    )
                    &&& r.0@ == flushed_twice(steps, flush_tlb_by_page)
                },
    {
        let ghost before = handler.frames();
        let mut nodes = Ghost(Map::<usize, TableNode>::empty());
        let (steps, done) = map_region_pages::<PTE, H, F>(
            handler,
            self.root_paddr,
            M::levels(),
            &mut self.shared,
            vaddr,
            get_paddr,
            size,
            flags,
            allow_huge,
            Ghost(Set::<usize>::empty()),
            &mut nodes,
        );
        let mut pages: Vec<usize> = Vec::new();
        if flush_tlb_by_page {
            let mut k: usize = 0;
            while k < steps.len()
                invariant
                    k <= steps.len(),
                    pages.len() == 2 * k,
                    forall|j: int| 0 <= j < 2 * k ==> pages[j] == steps[j / 2].vaddr,
                decreases steps.len() - k,
            {
                pages.push(steps[k].vaddr);
                pages.push(steps[k].vaddr);
                k = k + 1;
            }
        }
        assert(pages@ =~= flushed_twice(steps@, flush_tlb_by_page));
        assert(map_region_outcome::<PTE, F>(
            before,
            handler.frames(),
            old(self).spec_root_paddr(),
            M::spec_levels(),
            vaddr,
            get_paddr,
            size,
            flags,
            allow_huge,
            old(self).spec_shared().range,
            steps@,
            done,
        ));
        let r: Result<TlbFlushAll<M>, PagingError> = match done {
            Ok(_) => Ok(TlbFlushAll::new()),
            Err(err) => Err(err),
        };
        proof {
            match done {
                Ok(unit) => {
                    assert(unit == ());
                },
                Err(_) => {},
            }
            assert(outcome_of(r) == done);
        }
        (pages, r)
    }

    /// Unmaps a contiguous virtual memory region.
    ///
    /// The region must be mapped before using [`Self::map_region`]. It can
    /// deal with huge pages automatically. The address and `size` must be
    /// aligned to 4K, and a huge page must lie in the region as a whole,
    /// otherwise it will return [`Err(PagingError::NotAligned)`].
    ///
    /// When `flush_tlb_by_page` is true, the starts of the pages that were
    /// unmapped are returned, in order, for the caller to flush now.
    ///
    /// [`Err(PagingError::NotAligned)`]: PagingError::NotAligned
    pub fn unmap_region(
        &mut self,
        handler: &mut H,
        vaddr: usize,
        size: usize,
        flush_tlb_by_page: bool,
    ) -> (r: (Vec<usize>, Result<TlbFlushAll<M>, PagingError>))
        requires
            old(handler).inv(),
            Self::levels_supported(),
            vaddr + size <= usize::MAX,
        ensures
            final(handler).inv(),
            *final(self) == *old(self),
            ({
                let out = unmap_region_outcome::<PTE>(
                    old(handler).frames(),
                    old(self).spec_root_paddr(),
                    M::spec_levels(),
                    vaddr,
                    size,
                );
                &&& final(handler).frames() == out.frames
                &&& out.result == outcome_of(r.1)
                &&& r.0@ == flushed_by_page(out.steps, flush_tlb_by_page)
            }),
    {
        let (steps, done) = unmap_region_pages::<PTE, H>(
            handler,
            self.root_paddr,
            M::levels(),
            vaddr,
            size,
        );
        let pages = pages_to_flush(&steps, flush_tlb_by_page);
        let r: Result<TlbFlushAll<M>, PagingError> = match done {
            Ok(_) => Ok(TlbFlushAll::new()),
            Err(err) => Err(err),
        };
        proof {
            match done {
                Ok(unit) => {
                    assert(unit == ());
                },
                Err(_) => {},
            }
            assert(outcome_of(r) == done);
        }
        (pages, r)
    }

    /// Updates mapping flags of a contiguous virtual memory region.
    ///
    /// The region must be mapped before using [`Self::map_region`]. It can
    /// deal with huge pages automatically, and it skips what is not mapped.
    /// The address and `size` must be aligned to 4K, and a huge page must lie
    /// in the region as a whole, otherwise it will return
    /// [`Err(PagingError::NotAligned)`].
    ///
    /// When `flush_tlb_by_page` is true, the starts of the pages that were
    /// changed are returned, in order, for the caller to flush now.
    ///
    /// [`Err(PagingError::NotAligned)`]: PagingError::NotAligned
    pub fn protect_region(
        &mut self,
        handler: &mut H,
        vaddr: usize,
        size: usize,
        flags: MappingFlags,
        flush_tlb_by_page: bool,
    ) -> (r: (Vec<usize>, Result<TlbFlushAll<M>, PagingError>))
        requires
            old(handler).inv(),
            Self::levels_supported(),
            vaddr + size <= usize::MAX,
        ensures
            final(handler).inv(),
            *final(self) == *old(self),
            ({
                let out = protect_region_outcome::<PTE>(
                    old(handler).frames(),
                    old(self).spec_root_paddr(),
                    M::spec_levels(),
                    vaddr,
                    size,
                    flags,
                );
                &&& final(handler).frames() == out.frames
                &&& out.result == outcome_of(r.1)
                &&& r.0@ == edited_by_page(out.steps, flush_tlb_by_page)
            }),
    {
        let (steps, done) = protect_region_pages::<PTE, H>(
            handler,
            self.root_paddr,
            M::levels(),
            vaddr,
            size,
            flags,
        );
        let mut pages: Vec<usize> = Vec::new();
        if flush_tlb_by_page {
            let mut k: usize = 0;
            while k < steps.len()
                invariant
                    k <= steps.len(),
                    pages@ == edited_by_page(steps@.take(k as int), true),
                decreases steps.len() - k,
            {
                if steps[k].edited {
                    pages.push(steps[k].vaddr);
                }
                proof {
                    assert(steps@.take(k + 1).drop_last() =~= steps@.take(k as int));
                }
                k = k + 1;
            }
            assert(steps@.take(steps.len() as int) =~= steps@);
        }
        let r: Result<TlbFlushAll<M>, PagingError> = match done {
            Ok(_) => Ok(TlbFlushAll::new()),
            Err(err) => Err(err),
        };
        proof {
            match done {
                Ok(unit) => {
                    assert(unit == ());
                },
                Err(_) => {},
            }
            assert(outcome_of(r) == done);
        }
        (pages, r)
    }

    /// Walk the page table recursively.
    ///
    /// Every present entry is reported before the table below it if `pre` is
    /// set, and after it if `post` is set. The max number of enumerations
    /// in one table is limited by `limit`. The walk ends with an error at a
    /// present entry of an upper level that points nowhere; the reports up
    /// to there are returned with it.
    pub fn walk(&self, handler: &H, limit: usize, pre: bool, post: bool) -> (r: (
        Vec<WalkVisit<PTE>>,
        Result<(), PagingError>,
    ))
        requires
            handler.inv(),
            Self::levels_supported(),
        ensures
            r.0@ == spec_walk::<PTE>(
                handler.frames(),
                M::spec_levels(),
                self.spec_root_paddr(),
                0,
                0,
                limit,
                pre,
                post,
                true,
                0,
                0,
            ).visits,
            r.1 == spec_walk::<PTE>(
                handler.frames(),
                M::spec_levels(),
                self.spec_root_paddr(),
                0,
                0,
                limit,
                pre,
                post,
                true,
                0,
                0,
            ).result,
    {
        let mut visits: Vec<WalkVisit<PTE>> = Vec::new();
        let result = walk_recursive::<PTE, H>(
            handler,
            M::levels(),
            self.root_paddr,
            0,
            0,
            limit,
            pre,
            post,
            true,
            &mut visits,
        );
        proof {
            let out = spec_walk::<PTE>(
                handler.frames(),
                M::spec_levels(),
                self.spec_root_paddr(),
                0,
                0,
                limit,
                pre,
                post,
                true,
                0,
                0,
            );
            assert(Seq::<WalkVisit<PTE>>::empty() + out.visits =~= out.visits);
        }
        (visits, result)
    }

    /// Copy entries from another page table within the given virtual memory range.
    ///
    /// The descriptors of the root table that serve the range are replaced by
    /// those of the root table of `other`, and their slots are marked as on
    /// loan: what lies below them belongs to `other` and is not freed when
    /// this table is destroyed. The tables that lay below a slot that was
    /// not on loan before are freed.
    #[verifier::rlimit(50)]
    pub fn copy_from(&mut self, handler: &mut H, other: &Self, start: usize, size: usize)
        requires
            old(handler).inv(),
            Self::levels_supported(),
            start + size <= usize::MAX,
        ensures
            final(handler).inv(),
            final(self).spec_root_paddr() == old(self).spec_root_paddr(),
            final(self).spec_shared() == old(self).spec_shared(),
            size == 0 ==> final(handler).frames() == old(handler).frames() && final(self).borrowed()
                == old(self).borrowed(),
            size > 0 ==> {
                let root = old(self).spec_root_paddr();
                let first = Self::spec_root_index(start);
                let last = Self::spec_root_index((start + size - 1) as usize);
                let before = old(handler).frames();
                let after = final(handler).frames();
                &&& final(self).borrowed() =~= old(self).borrowed().union(
                    Set::new(|i: usize| first <= i <= last),
                )
                &&& after.dom().subset_of(before.dom())
                &&& forall|p: usize|
                    p != root && #[trigger] after.contains_key(p) ==> after[p] == before[p]
                &&& after.contains_key(root) ==> after[root].len() == before[root].len()
                &&& forall|i: usize|
                    after.contains_key(root) && i < after[root].len() && !(first <= i <= last)
                        ==> #[trigger] after[root][i as int] == before[root][i as int]
                &&& forall|i: usize|
                    after.contains_key(root) && after.contains_key(other.spec_root_paddr())
                        && other.spec_root_paddr() != root && first <= i <= last && i
                        < after[root].len() ==> #[trigger] after[root][i as int]
                        == before[other.spec_root_paddr()][i as int]
            },
    {
        if size == 0 {
            return ;
        }
        let ghost before = handler.frames();
        let root: usize = self.root_paddr;
        let start_idx: usize = if M::levels() == 3 {
            p3_index(start)
        } else {
            p4_index(start)
        };
        let end_idx: usize = if M::levels() == 3 {
            p3_index(start + size - 1)
        } else {
            p4_index(start + size - 1)
        } + 1;
        proof {
            handler.lemma_inv();
        }
        let ghost borrowed = self.borrowed();
        let mut i: usize = start_idx;
        while i < end_idx
            invariant
                handler.inv(),
                end_idx <= ENTRY_COUNT,
                start_idx <= i,
                i <= end_idx || i == start_idx,
                root == self.root_paddr,
                self.spec_root_paddr() == old(self).spec_root_paddr(),
                self.spec_shared() == old(self).spec_shared(),
                self.borrowed() =~= borrowed.union(Set::new(|k: usize| start_idx <= k < i)),
                Self::levels_supported(),
                frames_well_formed(before),
                handler.frames().dom().subset_of(before.dom()),
                forall|p: usize|
                    p != root && #[trigger] handler.frames().contains_key(p)
                        ==> handler.frames()[p] == before[p],
                handler.frames().contains_key(root) ==> handler.frames()[root].len()
                    == before[root].len(),
                forall|k: usize|
                    handler.frames().contains_key(root) && k < handler.frames()[root].len() && !(
                    start_idx <= k < i) ==> #[trigger] handler.frames()[root][k as int]
                        == before[root][k as int],
                forall|k: usize|
                    handler.frames().contains_key(root) && handler.frames().contains_key(
                        other.spec_root_paddr(),
                    ) && other.spec_root_paddr() != root && start_idx <= k < i && k
                        < handler.frames()[root].len() ==> #[trigger] handler.frames()[root][k as int]
                        == before[other.spec_root_paddr()][k as int],
            decreases end_idx - i,
        {
            if !slots_set(&mut self.borrowed_entries, i, true) {
                match read_entry::<PTE, H>(handler, root, i) {
                    Some(entry) => {
                        if entry.is_present() && !entry.is_huge() {
                            match next_table(&entry) {
                                Ok(child) => {
                                    let _ = dealloc_below::<PTE, H>(
                                        handler,
                                        M::levels(),
                                        child,
                                        1,
                                        &self.borrowed_entries,
                                    );
                                    crate::handler::free_frame(handler, child);
                                },
                                Err(_) => {},
                            }
                        }
                    },
                    None => {},
                }
            }
            proof {
                handler.lemma_inv();
            }
            match handler.read(other.root_paddr, i) {
                Some(word) => {
                    handler.write(root, i, word);
                },
                None => {},
            }
            i = i + 1;
        }
    }

    /// Destroys the page table: frees the tables that present descriptors
    /// point to, each after the tables below it, until a present descriptor
    /// of an upper level points nowhere, and then the root table. What lies
    /// below a slot of the root table that is on loan is not freed, and the
    /// frames that the pages map are not touched: they belong to the
    /// caller.
    pub fn destroy(self, handler: &mut H)
        requires
            old(handler).inv(),
            Self::levels_supported(),
        ensures
            final(handler).inv(),
            frames_freed(old(handler).frames(), final(handler).frames()),
            final(handler).frames() == spec_freed_below::<PTE>(
                old(handler).frames(),
                M::spec_levels(),
                self.spec_root_paddr(),
                0,
                0,
                self.borrowed(),
            ).frames.remove(self.spec_root_paddr()),
    {
        let _ = dealloc_below::<PTE, H>(
            handler,
            M::levels(),
            self.root_paddr,
            0,
            &self.borrowed_entries,
        );
        crate::handler::free_frame(handler, self.root_paddr);
    }
}

/// The starts of the pages that `steps` edited, in order, if they are to be
/// flushed page by page, and nothing if not. Steps that passed over a page
/// without a mapping give nothing.
pub open spec fn edited_by_page(steps: Seq<RegionStep>, flush_tlb_by_page: bool) -> Seq<usize>
    decreases steps.len(),
{
    if !flush_tlb_by_page || steps.len() == 0 {
        Seq::empty()
    } else if steps.last().edited {
        edited_by_page(steps.drop_last(), flush_tlb_by_page).push(steps.last().vaddr)
    } else {
        edited_by_page(steps.drop_last(), flush_tlb_by_page)
    }
}

/// After a page was mapped, a query of its address answers with the frame
/// that the target lies in, the offset of the address in the page, the
/// permissions as the descriptor grants them, and the size: for every
/// target that a page descriptor can hold, some permission, and frames that
/// table descriptors can point to.
pub proof fn lemma_map_then_query<PTE: GenericPTE>(
    before: Map<usize, Seq<u64>>,
    mid: Map<usize, Seq<u64>>,
    after: Map<usize, Seq<u64>>,
    root: usize,
    levels: usize,
    shared: SharedTables,
    initialized: bool,
    vaddr: usize,
    target: usize,
    size: PageSize,
    flags: MappingFlags,
)
    requires
        shared_map_outcome::<PTE>(
            before,
            mid,
            after,
            root,
            levels,
            shared,
            initialized,
            vaddr,
            page_entry::<PTE>(target, size, flags),
            size,
            Ok(()),
        ),
        !flags.spec_is_empty(),
        frames_fit::<PTE>(after),
        PTE::spec_holds_page(size.spec_align_down(target), size.spec_is_huge()),
    ensures
        spec_query::<PTE>(after, root, levels, vaddr) == Ok::<
            (usize, MappingFlags, PageSize),
            PagingError,
        >(
            (
                (size.spec_align_down(target) + vaddr % size.spec_bytes()) as usize,
                PTE::spec_new_page(0, flags, false).spec_flags(),
                size,
            ),
        ),
{
    let base = size.spec_align_down(target);
    let page = page_entry::<PTE>(target, size, flags);
    PTE::lemma_new_page(base, flags, size.spec_is_huge());
    PTE::lemma_present(page);
    crate::lemma_page_fits(target, vaddr, size);
    reveal(mapped_by);
    assert(map_outcome::<PTE>(mid, after, root, levels, vaddr, page, size, Ok(())));
}

} // verus!
