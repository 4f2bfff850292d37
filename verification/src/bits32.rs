//! Page tables of two levels with descriptors of 32 bits, as ARMv7-A has
//! them in the short-descriptor format.

use vstd::prelude::*;
use core::marker::PhantomData;
use crate::{PageSize, PagingError, PagingMetaData, TlbFlush, TlbFlushAll};
use crate::entry::{GenericPTE, MappingFlags};
use crate::handler::{
    frame_run, frames_added, free_frame, free_frames, PagingHandler, FRAME_SIZE,
};
use crate::owned32::{
    hanging_before, lemma_hanging_next, lemma_protect_region_wf, lemma_protect_wf, lemma_remap_wf,
    lemma_unmap_region_wf, lemma_unmap_wf, map_owned, table_ok, tree_wf,
};
use crate::region32::{
    region_owned, map_region_outcome, map_region_pages, protect_region_outcome, protect_region_pages,
    unmap_region_outcome, unmap_region_pages,
};
use crate::region64::RegionStep;
use crate::walk32::{
    entry_at, lemma_written, same_place, map_outcome, map_page, p1_index, page_entry, protect_outcome, protect_page,
    query_page, read_entry, remap_outcome, remap_page, spec_p1_index, spec_query, unmap_outcome,
    unmap_page, write_entry, L1_ENTRY_COUNT,
};
use crate::walk64::{frames_freed, zero_frame, zero_words, Slot};

verus! {

/// The number of frames that the table of the first level takes.
pub const L1_SIZE_PAGES: usize = 4;

/// The alignment of the table of the first level.
pub const L1_ALIGN: usize = 16384;

/// The result `r` without what a success carries.
pub open spec fn outcome_of<T>(r: Result<T, PagingError>) -> Result<(), PagingError> {
    match r {
        Ok(_) => Ok(()),
        Err(err) => Err(err),
    }
}

/// The starts of the pages that `steps` edited, in order, if they are to be
/// flushed page by page, and nothing if not.
pub open spec fn flushed_by_page(steps: Seq<RegionStep>, flush_tlb_by_page: bool) -> Seq<usize> {
    if flush_tlb_by_page {
        Seq::new(steps.len(), |k: int| steps[k].vaddr)
    } else {
        Seq::empty()
    }
}

/// The starts of the pages that were edited, if they are to be flushed page
/// by page.
pub fn pages_to_flush(steps: &Vec<RegionStep>, flush_tlb_by_page: bool) -> (r: Vec<usize>)
    ensures
        r@ == flushed_by_page(steps@, flush_tlb_by_page),
{
    let mut pages: Vec<usize> = Vec::new();
    if flush_tlb_by_page {
        let mut k: usize = 0;
        while k < steps.len()
            invariant
                k <= steps.len(),
                pages.len() == k,
                forall|j: int| 0 <= j < k ==> pages[j] == steps[j].vaddr,
            decreases steps.len() - k,
        {
            pages.push(steps[k].vaddr);
            k = k + 1;
        }
    }
    assert(pages@ =~= flushed_by_page(steps@, flush_tlb_by_page));
    pages
}

/// Whether the tables of the first level at `a` and at `b` have no frame in
/// common.
pub open spec fn tables_apart(a: usize, b: usize) -> bool {
    a + L1_SIZE_PAGES * FRAME_SIZE <= b || b + L1_SIZE_PAGES * FRAME_SIZE <= a
}

/// A descriptor of one of two tables that lie apart has no place in the
/// other.
pub proof fn lemma_apart(a: usize, b: usize, index: usize)
    requires
        tables_apart(a, b),
        index < L1_ENTRY_COUNT,
    ensures
        forall|k: usize|
            k < L1_ENTRY_COUNT ==> !(#[trigger] same_place(
                Slot { table: b, index },
                Slot { table: a, index: k },
            )),
{
}

/// Makes the table of the first level from what the handler gave for it:
/// `got` is the answer to the request for four frames in a row at a multiple
/// of 16KB.
///
/// Without frames the result is `NoMemory`. Frames at an address that is not
/// a multiple of 16KB go back to the handler, and the result is `NotAligned`.
/// Else the four frames are filled with zero and their address is the root;
/// no other frame changes.
pub fn root_from_frames<H: PagingHandler>(handler: &mut H, got: Option<usize>) -> (r: Result<
    usize,
    PagingError,
>)
    requires
        old(handler).inv(),
        got matches Some(p) ==> p + L1_SIZE_PAGES * FRAME_SIZE <= usize::MAX && frame_run(
            p,
            L1_SIZE_PAGES,
        ).subset_of(old(handler).frames().dom()),
    ensures
        final(handler).inv(),
        match got {
            None => r == Err::<usize, PagingError>(PagingError::NoMemory) && final(handler).frames()
                == old(handler).frames(),
            Some(p) => if p % L1_ALIGN != 0 {
                &&& r == Err::<usize, PagingError>(PagingError::NotAligned)
                &&& final(handler).frames() == old(handler).frames().remove_keys(
                    frame_run(p, L1_SIZE_PAGES),
                )
            } else {
                &&& r == Ok::<usize, PagingError>(p)
                &&& final(handler).frames().dom() == old(handler).frames().dom()
                &&& forall|k: usize|
                    k < L1_SIZE_PAGES ==> #[trigger] final(handler).frames()[(p + k
                        * FRAME_SIZE) as usize] == zero_words()
                &&& forall|q: usize|
                    old(handler).frames().contains_key(q) && !frame_run(p, L1_SIZE_PAGES).contains(
                        q,
                    ) ==> #[trigger] final(handler).frames()[q] == old(handler).frames()[q]
            },
        },
{
    let root_paddr: usize = match got {
        Some(paddr) => paddr,
        None => { return Err(PagingError::NoMemory); },
    };
    if root_paddr % L1_ALIGN != 0 {
        handler.dealloc_frames(root_paddr, L1_SIZE_PAGES);
        return Err(PagingError::NotAligned);
    }
    let ghost allocated = handler.frames();
    // Zero out the root page table
    let mut k: usize = 0;
    while k < L1_SIZE_PAGES
        invariant
            handler.inv(),
            k <= L1_SIZE_PAGES,
            root_paddr + L1_SIZE_PAGES * FRAME_SIZE <= usize::MAX,
            frame_run(root_paddr, L1_SIZE_PAGES).subset_of(allocated.dom()),
            handler.frames().dom() =~= allocated.dom(),
            forall|q: usize|
                allocated.contains_key(q) && !frame_run(root_paddr, L1_SIZE_PAGES).contains(q)
                    ==> #[trigger] handler.frames()[q] == allocated[q],
            forall|j: usize|
                j < k ==> #[trigger] handler.frames()[(root_paddr + j * FRAME_SIZE) as usize]
                    == zero_words(),
        decreases L1_SIZE_PAGES - k,
    {
        let frame: usize = root_paddr + k * FRAME_SIZE;
        assert(frame_run(root_paddr, L1_SIZE_PAGES).contains(frame));
        assert(allocated.dom().contains(frame));
        let ghost step = handler.frames();
        zero_frame(handler, frame);
        proof {
            assert forall|j: usize| j < k + 1 implies #[trigger] handler.frames()[(root_paddr + j
                * FRAME_SIZE) as usize] == zero_words() by {
                if j < k {
                    assert(step[(root_paddr + j * FRAME_SIZE) as usize] == zero_words());
                }
            }
        }
        k = k + 1;
    }
    Ok(root_paddr)
}

/// A generic page table struct for 32-bit ARM platform (ARMv7-A).
///
/// This implements a 2-level page table:
/// - L1: 4096 entries, each covering 1MB (Section) or pointing to L2
/// - L2: 256 entries, each covering 4KB (Small Page)
///
/// The table frames lie with the handler, which every operation takes as an
/// argument.
pub struct PageTable32<M: PagingMetaData, PTE: GenericPTE, H: PagingHandler> {
    root_paddr: usize,
    borrowed_entries: Vec<bool>,
    tables: Ghost<Map<usize, usize>>,
    _phantom: PhantomData<(M, PTE, H)>,
}

/// The descriptor at `index` of the table of the first level at `root`
/// points to the table of the second level at `table`.
pub open spec fn hangs_at<PTE: GenericPTE>(
    frames: Map<usize, Seq<u64>>,
    root: usize,
    index: usize,
    table: usize,
) -> bool {
    match entry_at::<PTE>(frames, root, index) {
        Some(e) => !e.spec_is_unused() && !e.spec_is_huge() && e.spec_paddr() == table,
        None => false,
    }
}

/// The table at `table` hangs at a descriptor of the first level before
/// `upto` whose slot is not on loan.
pub open spec fn hangs_before<PTE: GenericPTE>(
    frames: Map<usize, Seq<u64>>,
    root: usize,
    borrowed: Set<usize>,
    upto: usize,
    table: usize,
) -> bool {
    exists|j: usize|
        j < upto && !borrowed.contains(j) && #[trigger] hangs_at::<PTE>(frames, root, j, table)
}

impl<M: PagingMetaData, PTE: GenericPTE, H: PagingHandler> PageTable32<M, PTE, H> {
    /// The physical address of the table of the first level.
    pub closed spec fn spec_root_paddr(&self) -> usize {
        self.root_paddr
    }

    /// What a query of `vaddr` answers when the frames are `frames`.
    pub open spec fn query_in(&self, frames: Map<usize, Seq<u64>>, vaddr: usize) -> Result<
        (usize, PageSize, MappingFlags),
        PagingError,
    > {
        spec_query::<PTE>(frames, self.spec_root_paddr(), vaddr)
    }

    /// The tables of the second level that the tree owns, each with the
    /// index of the descriptor of the first level that it hangs at.
    pub closed spec fn tables(&self) -> Map<usize, usize> {
        self.tables@
    }

    /// The slots of the table of the first level that are on loan from
    /// another tree.
    pub closed spec fn borrowed(&self) -> Set<usize> {
        Set::new(
            |i: usize| i < self.borrowed_entries@.len() && self.borrowed_entries@[i as int],
        )
    }

    /// Whether the slot at `index` is on loan.
    fn on_loan(&self, index: usize) -> (r: bool)
        ensures
            r == self.borrowed().contains(index),
    {
        index < self.borrowed_entries.len() && self.borrowed_entries[index]
    }

    /// Marks the slot at `index` as on loan, and returns whether it was.
    fn lend(&mut self, index: usize) -> (was: bool)
        ensures
            was == old(self).borrowed().contains(index),
            final(self).borrowed() =~= old(self).borrowed().insert(index),
            final(self).spec_root_paddr() == old(self).spec_root_paddr(),
            final(self).tables() == old(self).tables(),
    {
        let was: bool = self.on_loan(index);
        while self.borrowed_entries.len() <= index
            invariant
                self.borrowed() =~= old(self).borrowed(),
                self.spec_root_paddr() == old(self).spec_root_paddr(),
                self.tables() == old(self).tables(),
            decreases index + 1 - self.borrowed_entries.len(),
        {
            self.borrowed_entries.push(false);
        }
        self.borrowed_entries.set(index, true);
        was
    }

    /// The frames that the tree owns: the four frames of the table of the
    /// first level and the tables of the second level that were made for
    /// its mappings.
    pub open spec fn owned(&self) -> Set<usize> {
        self.tables().dom().union(frame_run(self.spec_root_paddr(), L1_SIZE_PAGES))
    }

    /// The tree is well formed when the frames are `frames`: what it owns is
    /// there, and every descriptor of the first level that points to a table
    /// points to one that it owns.
    pub open spec fn wf(&self, frames: Map<usize, Seq<u64>>) -> bool {
        tree_wf::<PTE>(frames, self.spec_root_paddr(), self.tables())
    }

    /// Creates a new page table instance or returns the error.
    ///
    /// It will allocate four frames in a row, aligned to 16KB, for the L1
    /// page table, and fill them with zero. Frames that the handler gave at
    /// an address that is not so aligned go back to it, and the error is
    /// [`PagingError::NotAligned`].
    #[verifier::rlimit(50)]
    pub fn try_new(handler: &mut H) -> (r: Result<Self, PagingError>)
        requires
            old(handler).inv(),
        ensures
            final(handler).inv(),
            match r {
                Ok(table) => {
                    let root = table.spec_root_paddr();
                    &&& root % L1_ALIGN == 0
                    &&& frames_added(
                        old(handler).frames(),
                        final(handler).frames(),
                        frame_run(root, L1_SIZE_PAGES),
                    )
                    &&& forall|k: usize|
                        k < L1_SIZE_PAGES ==> #[trigger] final(handler).frames()[(root + k
                            * FRAME_SIZE) as usize] == zero_words()
                    &&& table.tables() == Map::<usize, usize>::empty()
                    &&& table.borrowed() == Set::<usize>::empty()
                    &&& PTE::spec_short() ==> table.wf(final(handler).frames())
                },
                Err(err) => {
                    &&& err == PagingError::NoMemory || err == PagingError::NotAligned
                    &&& final(handler).frames() == old(handler).frames()
                },
            },
    {
        let ghost before = handler.frames();
        // ARMv7-A L1 page table: 4096 entries * 4 bytes = 16KB
        // Requires 16KB alignment for TTBR0
        let got: Option<usize> = handler.alloc_frames(L1_SIZE_PAGES, L1_ALIGN);
        let ghost allocated = handler.frames();
        let root_paddr: usize = match root_from_frames(handler, got) {
            Ok(paddr) => paddr,
            Err(err) => {
                assert(handler.frames() =~= before);
                return Err(err);
            },
        };
        proof {
            assert forall|p: usize| #[trigger] before.contains_key(p) implies handler.frames()[p]
                == before[p] by {
                assert(!frame_run(root_paddr, L1_SIZE_PAGES).contains(p));
            }
            assert(frames_added(before, handler.frames(), frame_run(root_paddr, L1_SIZE_PAGES)));
        }
        let table = PageTable32 {
            root_paddr,
            borrowed_entries: Vec::new(),
            tables: Ghost(Map::<usize, usize>::empty()),
            _phantom: PhantomData,
        };
        proof {
            assert(table.borrowed() =~= Set::<usize>::empty());
            if PTE::spec_short() {
                let frames = handler.frames();
                crate::walk32::lemma_in_use::<PTE>();
                assert forall|p: usize| #[trigger] frame_run(root_paddr, L1_SIZE_PAGES).contains(
                    p,
                ) implies frames.contains_key(p) && frames[p] == zero_words() by {
                    let k = ((p - root_paddr) / (FRAME_SIZE as int)) as usize;
                    assert(p == (root_paddr + k * FRAME_SIZE) as usize);
                    assert(allocated.dom().contains(p));
                }
                assert forall|index: usize|
                    index < L1_ENTRY_COUNT && (#[trigger] entry_at::<PTE>(
                        frames,
                        root_paddr,
                        index,
                    )) is Some implies entry_at::<PTE>(frames, root_paddr, index)
                    == Some(PTE::spec_from_raw(0)) by {
                    crate::owned32::lemma_entry_frames(root_paddr, index);
                    crate::walk32::lemma_halves(0, index % 2 == 1, 0);
                    let f = crate::walk32::entry_frame(root_paddr, index) as usize;
                    assert(frames[f][crate::walk32::entry_word(index)] == 0);
                }
            }
        }
        Ok(table)
    }

    /// Returns the physical address of the root page table (L1).
    pub fn root_paddr(&self) -> (r: usize)
        ensures
            r == self.spec_root_paddr(),
    {
        self.root_paddr
    }

    /// Maps a virtual page to a physical frame with the given `page_size`
    /// and mapping `flags`.
    ///
    /// - For 1MB sections: maps directly in L1
    /// - For 4KB pages: creates L2 table if needed, then maps in L2
    ///
    /// Returns [`Err(PagingError::AlreadyMapped)`](PagingError::AlreadyMapped)
    /// if the mapping is already present.
    pub fn map(
        &mut self,
        handler: &mut H,
        vaddr: usize,
        target: usize,
        page_size: PageSize,
        flags: MappingFlags,
    ) -> (r: Result<TlbFlush<M>, PagingError>)
        requires
            old(handler).inv(),
            PTE::spec_short(),
            page_size == PageSize::Size4K || page_size == PageSize::Size1M,
        ensures
            final(handler).inv(),
            final(self).spec_root_paddr() == old(self).spec_root_paddr(),
            map_owned::<PTE>(
                old(handler).frames(),
                final(handler).frames(),
                old(self).spec_root_paddr(),
                old(self).tables(),
                final(self).tables(),
                page_entry::<PTE>(target, page_size, flags),
                page_size,
                outcome_of(r),
            ),
            map_outcome::<PTE>(
                old(handler).frames(),
                final(handler).frames(),
                old(self).spec_root_paddr(),
                vaddr,
                page_entry::<PTE>(target, page_size, flags),
                page_size,
                outcome_of(r),
            ),
            match r {
                Ok(tlb) => tlb.spec_vaddr() == vaddr,
                Err(_) => true,
            },
    {
        map_page::<PTE, H>(
            handler,
            self.root_paddr,
            vaddr,
            target,
            page_size,
            flags,
            &mut self.tables,
        )?;
        Ok(TlbFlush::new(vaddr))
    }

    /// Unmaps the mapping starts with `vaddr`.
    ///
    /// Returns the address that was mapped and the page size of the unmapped
    /// mapping.
    pub fn unmap(&mut self, handler: &mut H, vaddr: usize) -> (r: Result<
        (usize, PageSize, TlbFlush<M>),
        PagingError,
    >)
        requires
            old(handler).inv(),
            PTE::spec_short(),
        ensures
            final(handler).inv(),
            *final(self) == *old(self),
            old(self).wf(old(handler).frames()) ==> final(self).wf(final(handler).frames()),
            unmap_outcome::<PTE>(
                old(handler).frames(),
                final(handler).frames(),
                old(self).spec_root_paddr(),
                vaddr,
                match r {
                    Ok((paddr, size, _)) => Ok((paddr, size)),
                    Err(err) => Err(err),
                },
            ),
            match r {
                Ok((_, _, tlb)) => tlb.spec_vaddr() == vaddr,
                Err(_) => true,
            },
    {
        let ghost before = handler.frames();
        let unmapped = unmap_page::<PTE, H>(handler, self.root_paddr, vaddr);
        proof {
            if self.wf(before) {
                lemma_unmap_wf::<PTE>(
                    before,
                    handler.frames(),
                    self.spec_root_paddr(),
                    self.tables(),
                    vaddr,
                    unmapped,
                );
            }
        }
        let (paddr, size) = unmapped?;
        Ok((paddr, size, TlbFlush::new(vaddr)))
    }

    /// Query the result of the mapping starts with `vaddr`.
    ///
    /// Returns the physical address of the target frame, the page size, and the
    /// flags of the mapping.
    ///
    /// Returns [`Err(PagingError::NotMapped)`](PagingError::NotMapped) if the mapping
    /// is not present.
    pub fn query(&self, handler: &H, vaddr: usize) -> (r: Result<
        (usize, PageSize, MappingFlags),
        PagingError,
    >)
        requires
            handler.inv(),
        ensures
            r == self.query_in(handler.frames(), vaddr),
    {
        query_page::<PTE, H>(handler, self.root_paddr, vaddr)
    }

    /// Remap the mapping starts with `vaddr`, updates both the physical address
    /// and flags.
    ///
    /// Returns the page size of the mapping.
    pub fn remap(&mut self, handler: &mut H, vaddr: usize, paddr: usize, flags: MappingFlags) -> (r:
        Result<(PageSize, TlbFlush<M>), PagingError>)
        requires
            old(handler).inv(),
        ensures
            final(handler).inv(),
            *final(self) == *old(self),
            old(self).wf(old(handler).frames()) && !flags.spec_is_empty() ==> final(self).wf(
                final(handler).frames(),
            ),
            remap_outcome::<PTE>(
                old(handler).frames(),
                final(handler).frames(),
                old(self).spec_root_paddr(),
                vaddr,
                paddr,
                flags,
                match r {
                    Ok((size, _)) => Ok(size),
                    Err(err) => Err(err),
                },
            ),
            match r {
                Ok((_, tlb)) => tlb.spec_vaddr() == vaddr,
                Err(_) => true,
            },
    {
        let ghost before = handler.frames();
        let remapped = remap_page::<PTE, H>(handler, self.root_paddr, vaddr, paddr, flags);
        proof {
            if self.wf(before) && !flags.spec_is_empty() {
                lemma_remap_wf::<PTE>(
                    before,
                    handler.frames(),
                    self.spec_root_paddr(),
                    self.tables(),
                    vaddr,
                    paddr,
                    flags,
                    remapped,
                );
            }
        }
        let size = remapped?;
        Ok((size, TlbFlush::new(vaddr)))
    }

    /// Updates the flags of the mapping starts with `vaddr`.
    ///
    /// Returns the page size of the mapping.
    pub fn protect(&mut self, handler: &mut H, vaddr: usize, flags: MappingFlags) -> (r: Result<
        (PageSize, TlbFlush<M>),
        PagingError,
    >)
        requires
            old(handler).inv(),
        ensures
            final(handler).inv(),
            *final(self) == *old(self),
            old(self).wf(old(handler).frames()) && !flags.spec_is_empty() ==> final(self).wf(
                final(handler).frames(),
            ),
            protect_outcome::<PTE>(
                old(handler).frames(),
                final(handler).frames(),
                old(self).spec_root_paddr(),
                vaddr,
                flags,
                match r {
                    Ok((size, _)) => Ok(size),
                    Err(err) => Err(err),
                },
            ),
            match r {
                Ok((_, tlb)) => tlb.spec_vaddr() == vaddr,
                Err(_) => true,
            },
    {
        let ghost before = handler.frames();
        let protected = protect_page::<PTE, H>(handler, self.root_paddr, vaddr, flags);
        proof {
            if self.wf(before) && !flags.spec_is_empty() {
                lemma_protect_wf::<PTE>(
                    before,
                    handler.frames(),
                    self.spec_root_paddr(),
                    self.tables(),
                    vaddr,
                    flags,
                    protected,
                );
            }
        }
        let size = protected?;
        Ok((size, TlbFlush::new(vaddr)))
    }

    /// Maps a contiguous virtual memory region to a contiguous physical memory
    /// region with the given mapping `flags`.
    ///
    /// Returns the starts of the pages to flush now, which are those that
    /// were mapped if `flush_tlb_by_page` is set, and the result.
    pub fn map_region<F: Fn(usize) -> usize>(
        &mut self,
        handler: &mut H,
        vaddr: usize,
        get_paddr: F,
        size: usize,
        flags: MappingFlags,
        allow_huge: bool,
        flush_tlb_by_page: bool,
    ) -> (r: (Vec<usize>, Result<TlbFlushAll<M>, PagingError>))
        requires
            old(handler).inv(),
            PTE::spec_short(),
            vaddr + size <= usize::MAX,
            forall|v: usize| get_paddr.requires((v,)),
        ensures
            final(handler).inv(),
            final(self).spec_root_paddr() == old(self).spec_root_paddr(),
            region_owned::<PTE>(
                old(handler).frames(),
                final(handler).frames(),
                old(self).spec_root_paddr(),
                old(self).tables(),
                final(self).tables(),
                flags,
            ),
            exists|steps: Seq<RegionStep>|
                {
                    &&& #[trigger] map_region_outcome::<PTE, F>(
                        old(handler).frames(),
                        final(handler).frames(),
                        old(self).spec_root_paddr(),
                        vaddr,
                        get_paddr,
                        size,
                        flags,
                        allow_huge,
                        steps,
                        outcome_of(r.1),
                    )
                    &&& r.0@ == flushed_by_page(steps, flush_tlb_by_page)
                },
    {
        let ghost before = handler.frames();
        let (steps, done) = map_region_pages::<PTE, H, F>(
            handler,
            self.root_paddr,
            vaddr,
            get_paddr,
            size,
            flags,
            allow_huge,
            &mut self.tables,
        );
        let pages = pages_to_flush(&steps, flush_tlb_by_page);
        assert(map_region_outcome::<PTE, F>(
            before,
            handler.frames(),
            old(self).spec_root_paddr(),
            vaddr,
            get_paddr,
            size,
            flags,
            allow_huge,
            steps@,
            done,
        ));
        let r: Result<TlbFlushAll<M>, PagingError> = match done {
            Ok(_) => Ok(TlbFlushAll::new()),
            Err(err) => Err(err),
        };
        proof {
            match done {
                Ok(unit) => {
                    assert(unit == ());
                },
                Err(_) => {},
            }
            assert(outcome_of(r) == done);
        }
        (pages, r)
    }

    /// Unmaps a contiguous virtual memory region.
    ///
    /// Returns the starts of the pages to flush now, which are those that
    /// were unmapped if `flush_tlb_by_page` is set, and the result.
    pub fn unmap_region(
        &mut self,
        handler: &mut H,
        vaddr: usize,
        size: usize,
        flush_tlb_by_page: bool,
    ) -> (r: (Vec<usize>, Result<TlbFlushAll<M>, PagingError>))
        requires
            old(handler).inv(),
            PTE::spec_short(),
            vaddr + size <= usize::MAX,
        ensures
            final(handler).inv(),
            *final(self) == *old(self),
            old(self).wf(old(handler).frames()) ==> final(self).wf(final(handler).frames()),
            ({
                let out = unmap_region_outcome::<PTE>(
                    old(handler).frames(),
                    old(self).spec_root_paddr(),
                    vaddr,
                    size,
                );
                &&& final(handler).frames() == out.frames
                &&& out.result == outcome_of(r.1)
                &&& r.0@ == flushed_by_page(out.steps, flush_tlb_by_page)
            }),
    {
        proof {
            if self.wf(handler.frames()) {
                lemma_unmap_region_wf::<PTE>(
                    handler.frames(),
                    self.spec_root_paddr(),
                    self.tables(),
                    vaddr,
                    size,
                );
            }
        }
        let (steps, done) = unmap_region_pages::<PTE, H>(handler, self.root_paddr, vaddr, size);
        let pages = pages_to_flush(&steps, flush_tlb_by_page);
        let r: Result<TlbFlushAll<M>, PagingError> = match done {
            Ok(_) => Ok(TlbFlushAll::new()),
            Err(err) => Err(err),
        };
        proof {
            match done {
                Ok(unit) => {
                    assert(unit == ());
                },
                Err(_) => {},
            }
            assert(outcome_of(r) == done);
        }
        (pages, r)
    }

    /// Updates mapping flags of a contiguous virtual memory region.
    ///
    /// Returns the starts of the pages to flush now, which are those that
    /// were changed if `flush_tlb_by_page` is set, and the result.
    pub fn protect_region(
        &mut self,
        handler: &mut H,
        vaddr: usize,
        size: usize,
        flags: MappingFlags,
        flush_tlb_by_page: bool,
    ) -> (r: (Vec<usize>, Result<TlbFlushAll<M>, PagingError>))
        requires
            old(handler).inv(),
            PTE::spec_short(),
            vaddr + size <= usize::MAX,
        ensures
            final(handler).inv(),
            *final(self) == *old(self),
            old(self).wf(old(handler).frames()) && !flags.spec_is_empty() ==> final(self).wf(
                final(handler).frames(),
            ),
            ({
                let out = protect_region_outcome::<PTE>(
                    old(handler).frames(),
                    old(self).spec_root_paddr(),
                    vaddr,
                    size,
                    flags,
                );
                &&& final(handler).frames() == out.frames
                &&& out.result == outcome_of(r.1)
                &&& r.0@ == flushed_by_page(out.steps, flush_tlb_by_page)
            }),
    {
        proof {
            if self.wf(handler.frames()) && !flags.spec_is_empty() {
                lemma_protect_region_wf::<PTE>(
                    handler.frames(),
                    self.spec_root_paddr(),
                    self.tables(),
                    vaddr,
                    size,
                    flags,
                );
            }
        }
        let (steps, done) = protect_region_pages::<PTE, H>(
            handler,
            self.root_paddr,
            vaddr,
            size,
            flags,
        );
        let pages = pages_to_flush(&steps, flush_tlb_by_page);
        let r: Result<TlbFlushAll<M>, PagingError> = match done {
            Ok(_) => Ok(TlbFlushAll::new()),
            Err(err) => Err(err),
        };
        proof {
            match done {
                Ok(unit) => {
                    assert(unit == ());
                },
                Err(_) => {},
            }
            assert(outcome_of(r) == done);
        }
        (pages, r)
    }

    /// Copy entries from another page table within the given virtual memory range.
    ///
    /// The descriptors of the table of the first level that serve the range
    /// are replaced by those of the table of the first level of `other`, and
    /// their slots are marked as on loan: the tables that they point to
    /// belong to `other` and are not freed when this table is destroyed. A
    /// table that a descriptor pointed to which was not on loan before is
    /// freed.
    #[verifier::rlimit(50)]
    pub fn copy_from(&mut self, handler: &mut H, other: &Self, start: usize, size: usize)
        requires
            old(handler).inv(),
            PTE::spec_short(),
            start + size <= usize::MAX,
        ensures
            final(handler).inv(),
            final(self).spec_root_paddr() == old(self).spec_root_paddr(),
            final(self).tables() == old(self).tables(),
            size == 0 ==> final(handler).frames() == old(handler).frames() && final(self).borrowed()
                == old(self).borrowed(),
            final(handler).frames().dom().subset_of(old(handler).frames().dom()),
            size > 0 ==> {
                let root = old(self).spec_root_paddr();
                let first = spec_p1_index(start);
                let last = spec_p1_index((start + size - 1) as usize);
                let before = old(handler).frames();
                let after = final(handler).frames();
                &&& final(self).borrowed() =~= old(self).borrowed().union(
                    Set::new(|i: usize| first <= i <= last),
                )
                &&& forall|t: usize, i: usize|
                    (forall|k: usize|
                        first <= k <= last ==> !same_place(
                            Slot { table: t, index: i },
                            Slot { table: root, index: k },
                        )) && (#[trigger] entry_at::<PTE>(after, t, i)) is Some ==> entry_at::<PTE>(
                        after,
                        t,
                        i,
                    ) == entry_at::<PTE>(before, t, i)
                &&& tables_apart(root, other.spec_root_paddr()) ==> forall|k: usize|
                    first <= k <= last && (#[trigger] entry_at::<PTE>(after, root, k)) is Some
                        && entry_at::<PTE>(after, other.spec_root_paddr(), k) is Some
                        ==> entry_at::<PTE>(after, root, k) == entry_at::<PTE>(
                        before,
                        other.spec_root_paddr(),
                        k,
                    )
            },
    {
        if size == 0 {
            return ;
        }
        let ghost before = handler.frames();
        let ghost borrowed = self.borrowed();
        let root: usize = self.root_paddr;
        let start_idx: usize = p1_index(start);
        let end_idx: usize = p1_index(start + size - 1) + 1;
        let mut i: usize = start_idx;
        while i < end_idx
            invariant
                handler.inv(),
                PTE::spec_short(),
                end_idx <= L1_ENTRY_COUNT,
                start_idx <= i,
                i <= end_idx || i == start_idx,
                root == self.root_paddr,
                self.spec_root_paddr() == old(self).spec_root_paddr(),
                self.tables() == old(self).tables(),
                self.borrowed() =~= borrowed.union(Set::new(|k: usize| start_idx <= k < i)),
                handler.frames().dom().subset_of(before.dom()),
                forall|t: usize, j: usize|
                    (forall|k: usize|
                        start_idx <= k < i ==> !same_place(
                            Slot { table: t, index: j },
                            Slot { table: root, index: k },
                        )) && (#[trigger] entry_at::<PTE>(handler.frames(), t, j)) is Some
                        ==> entry_at::<PTE>(handler.frames(), t, j) == entry_at::<PTE>(
                        before,
                        t,
                        j,
                    ),
                tables_apart(root, other.spec_root_paddr()) ==> forall|k: usize|
                    start_idx <= k < i && (#[trigger] entry_at::<PTE>(handler.frames(), root, k))
                        is Some && entry_at::<PTE>(handler.frames(), other.spec_root_paddr(), k)
                        is Some ==> entry_at::<PTE>(handler.frames(), root, k) == entry_at::<PTE>(
                        before,
                        other.spec_root_paddr(),
                        k,
                    ),
            decreases end_idx - i,
        {
            let ghost begun = handler.frames();
            if !self.lend(i) {
                match read_entry::<PTE, H>(handler, root, i) {
                    Some(displaced) => {
                        if !displaced.is_unused() && !displaced.is_huge() {
                            free_frame(handler, displaced.paddr());
                        }
                    },
                    None => {},
                }
            }
            let ghost step = handler.frames();
            proof {
                assert(step.dom().subset_of(begun.dom()));
                assert forall|t: usize, j: usize| (#[trigger] entry_at::<PTE>(step, t, j))
                    is Some implies entry_at::<PTE>(step, t, j) == entry_at::<PTE>(begun, t, j) by {
                    let f = crate::walk32::entry_frame(t, j) as usize;
                    assert(step.contains_key(f));
                    assert(step[f] == begun[f]);
                }
                if tables_apart(root, other.spec_root_paddr()) {
                    lemma_apart(root, other.spec_root_paddr(), i);
                }
            }
            let copied: Option<PTE> = read_entry::<PTE, H>(handler, other.root_paddr, i);
            let mut wrote: bool = false;
            match copied {
                Some(entry) => {
                    match read_entry::<PTE, H>(handler, root, i) {
                        Some(_) => {
                            write_entry::<PTE, H>(handler, Slot { table: root, index: i }, entry);
                            wrote = true;
                            proof {
                                lemma_written::<PTE>(step, Slot { table: root, index: i }, entry);
                            }
                        },
                        None => {},
                    }
                },
                None => {},
            }
            proof {
                let now = handler.frames();
                assert(now.dom().subset_of(before.dom()));
                assert forall|t: usize, j: usize|
                    (forall|k: usize|
                        start_idx <= k < i + 1 ==> !same_place(
                            Slot { table: t, index: j },
                            Slot { table: root, index: k },
                        )) && (#[trigger] entry_at::<PTE>(now, t, j)) is Some implies entry_at::<
                    PTE,
                >(now, t, j) == entry_at::<PTE>(before, t, j) by {
                    assert(!same_place(
                        Slot { table: t, index: j },
                        Slot { table: root, index: i },
                    ));
                    assert(entry_at::<PTE>(now, t, j) == entry_at::<PTE>(step, t, j));
                    assert(entry_at::<PTE>(step, t, j) == entry_at::<PTE>(begun, t, j));
                    assert(entry_at::<PTE>(begun, t, j) is Some);
                }
                if tables_apart(root, other.spec_root_paddr()) {
                    let o = other.spec_root_paddr();
                    assert forall|k: usize|
                        start_idx <= k < i + 1 && (#[trigger] entry_at::<PTE>(now, root, k))
                            is Some && entry_at::<PTE>(now, o, k) is Some implies entry_at::<PTE>(
                        now,
                        root,
                        k,
                    ) == entry_at::<PTE>(before, o, k) by {
                        lemma_apart(root, o, k);
                        assert(!same_place(
                            Slot { table: o, index: k },
                            Slot { table: root, index: i },
                        ));
                        assert(entry_at::<PTE>(now, o, k) == entry_at::<PTE>(step, o, k));
                        assert(entry_at::<PTE>(step, o, k) == entry_at::<PTE>(begun, o, k));
                        if k < i {
                            assert(!same_place(
                                Slot { table: root, index: k },
                                Slot { table: root, index: i },
                            ));
                            assert(entry_at::<PTE>(now, root, k) == entry_at::<PTE>(step, root, k));
                            assert(entry_at::<PTE>(step, root, k) == entry_at::<PTE>(
                                begun,
                                root,
                                k,
                            ));
                        } else {
                            assert(entry_at::<PTE>(begun, o, k) == entry_at::<PTE>(before, o, k));
                            if !wrote {
                                assert(copied is Some);
                                assert(entry_at::<PTE>(step, root, k) is None);
                            }
                        }
                    }
                }
            }
            i = i + 1;
        }
    }

    /// Destroys the page table: frees every table of the second level that a
    /// descriptor of the first level points to whose slot is not on loan,
    /// and then the four frames of the table of the first level.
    ///
    /// What is on loan is not freed: a frame that goes is one of the four,
    /// or hangs at a slot that is not on loan. A well formed tree that has
    /// nothing on loan frees exactly the frames that it owns.
    #[verifier::rlimit(50)]
    pub fn destroy(self, handler: &mut H)
        requires
            old(handler).inv(),
        ensures
            final(handler).inv(),
            frames_freed(old(handler).frames(), final(handler).frames()),
            forall|p: usize| #[trigger]
                frame_run(self.spec_root_paddr(), L1_SIZE_PAGES).contains(p) ==> !final(handler).frames().contains_key(p),
            ({
                let before = old(handler).frames();
                let after = final(handler).frames();
                let root = self.spec_root_paddr();
                forall|p: usize|
                    before.contains_key(p) && !(#[trigger] after.contains_key(p)) ==> frame_run(
                        root,
                        L1_SIZE_PAGES,
                    ).contains(p) || hangs_before::<PTE>(
                        before,
                        root,
                        self.borrowed(),
                        L1_ENTRY_COUNT,
                        p,
                    )
            }),
            self.wf(old(handler).frames()) && self.borrowed() =~= Set::<usize>::empty()
                ==> final(handler).frames() == old(handler).frames().remove_keys(self.owned()),
    {
        let ghost before = handler.frames();
        let ghost root = self.spec_root_paddr();
        let ghost tables = self.tables();
        let ghost formed = self.wf(before) && self.borrowed() =~= Set::<usize>::empty();
        let ghost borrowed = self.borrowed();
        proof {
            if formed {
                lemma_hanging_next::<PTE>(before, root, tables, 0);
                assert(before.remove_keys(hanging_before(tables, 0)) =~= before);
            }
        }
        // Deallocate all L2 page tables (each is 4KB)
        let mut i: usize = 0;
        while i < L1_ENTRY_COUNT
            invariant
                handler.inv(),
                i <= L1_ENTRY_COUNT,
                before == old(handler).frames(),
                root == self.spec_root_paddr(),
                tables == self.tables(),
                borrowed == self.borrowed(),
                formed == (self.wf(before) && borrowed =~= Set::<usize>::empty()),
                frames_freed(before, handler.frames()),
                forall|p: usize|
                    before.contains_key(p) && !(#[trigger] handler.frames().contains_key(p))
                        ==> hangs_before::<PTE>(before, root, borrowed, i, p),
                formed ==> handler.frames() == before.remove_keys(hanging_before(tables, i)),
            decreases L1_ENTRY_COUNT - i,
        {
            let ghost step = handler.frames();
            proof {
                if formed {
                    lemma_hanging_next::<PTE>(before, root, tables, i);
                    crate::owned32::lemma_entry_frames(root, i);
                    let f = crate::walk32::entry_frame(root, i) as usize;
                    assert(frame_run(root, L1_SIZE_PAGES).contains(f));
                    assert(!hanging_before(tables, i).contains(f)) by {
                        if tables.contains_key(f) {
                            assert(table_ok::<PTE>(before, root, tables, f));
                        }
                    }
                    assert(step.contains_key(f) && step[f] == before[f]);
                    assert(entry_at::<PTE>(step, root, i) == entry_at::<PTE>(before, root, i));
                }
            }
            let lent: bool = self.on_loan(i);
            match read_entry::<PTE, H>(handler, self.root_paddr, i) {
                Some(entry) => {
                    if !lent && !entry.is_unused() && !entry.is_huge() {
                        // This is an L2 page table (4KB)
                        free_frame(handler, entry.paddr());
                        proof {
                            if formed {
                                assert(handler.frames() =~= before.remove_keys(
                                    hanging_before(tables, (i + 1) as usize),
                                ));
                            }
                            assert(entry_at::<PTE>(before, root, i) == Some(entry));
                            assert(hangs_at::<PTE>(before, root, i, entry.spec_paddr()));
                        }
                    }
                },
                None => {},
            }
            proof {
                assert forall|p: usize|
                    before.contains_key(p) && !(#[trigger] handler.frames().contains_key(
                        p,
                    )) implies hangs_before::<PTE>(before, root, borrowed, (i + 1) as usize, p) by {
                    if step.contains_key(p) {
                        assert(hangs_at::<PTE>(before, root, i, p));
                    } else {
                        assert(hangs_before::<PTE>(before, root, borrowed, i, p));
                    }
                }
            }
            i = i + 1;
        }
        // Deallocate L1 page table (16KB = 4 pages)
        free_frames(handler, self.root_paddr, L1_SIZE_PAGES);
        proof {
            if formed {
                lemma_hanging_next::<PTE>(before, root, tables, 0);
                assert(handler.frames() =~= before.remove_keys(self.owned()));
            }
        }
    }
}

} // verus!
