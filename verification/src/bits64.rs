//! Page tables of three or four levels with 512 entries in each table, as
//! the 64-bit architectures have them.

use vstd::prelude::*;
use core::marker::PhantomData;
use crate::{PageSize, PagingError, PagingMetaData};
use crate::borrowed::{marked, slots_get, slots_new, slots_set, BorrowedSlots};
use crate::entry::{GenericPTE, MappingFlags};
use crate::flush::{pushed, flush_requests, Pending, TlbFlusher};
use crate::handler::PagingHandler;
use crate::owned64::{
    hanging, lemma_copied_wf, below, intact, lemma_below_all, node_ok, subtree, under,
    lemma_protect_region_wf, lemma_protect_wf, lemma_remap_wf, lemma_unmap_region_wf,
    lemma_unmap_wf, range_not_on_loan, spec_root_index, tree_wf, TableNode,
};
use crate::shared64::SharedTables;
use crate::visit64::{spec_walk, walk_recursive, WalkVisit};
use crate::region64::{
    region_owned, map_region_outcome, map_region_pages, protect_region_outcome, protect_region_pages,
    unmap_region_outcome, unmap_region_pages, RegionStep,
};
use crate::walk64::{
    lemma_freed_next, map_owned, alloc_table, dealloc_tree, frames_freed, next_table, p3_index,
    p4_index, read_entry, spec_p3_index, spec_p4_index, ENTRY_COUNT, map_outcome, map_page,
    page_entry, protect_outcome, protect_page, query_page, remap_outcome, remap_page,
    spec_query, unmap_outcome, unmap_page, zero_words,
};

verus! {

/// A generic page table struct for 64-bit platform.
///
/// It holds the address of the root table and the slots of it that are on
/// loan from another tree. The table frames lie with the handler, which
/// every operation takes as an argument.
pub struct PageTable64<M: PagingMetaData, PTE: GenericPTE, H: PagingHandler> {
    root_paddr: usize,
    borrowed_entries: BorrowedSlots,
    nodes: Ghost<Map<usize, TableNode>>,
    _phantom: PhantomData<(M, PTE, H)>,
}

impl<M: PagingMetaData, PTE: GenericPTE, H: PagingHandler> PageTable64<M, PTE, H> {
    /// The physical address of the root table.
    pub closed spec fn spec_root_paddr(&self) -> usize {
        self.root_paddr
    }

    /// The slots of the root table that are on loan from another tree.
    pub closed spec fn borrowed(&self) -> Set<usize> {
        marked(self.borrowed_entries)
    }

    /// The tables that the tree owns, and where each hangs.
    pub closed spec fn nodes(&self) -> Map<usize, TableNode> {
        self.nodes@
    }

    /// The frames of the tables that the tree owns: the root table and the
    /// tables that were made for its mappings.
    pub open spec fn owned(&self) -> Set<usize> {
        self.nodes().dom()
    }

    /// The tree is well formed when the frames are `frames`: the tables
    /// that it owns are there and hang together as a tree, and every table
    /// that it points to is one of them, except below the slots that are on
    /// loan.
    pub open spec fn wf(&self, frames: Map<usize, Seq<u64>>) -> bool {
        tree_wf::<PTE>(
            frames,
            self.spec_root_paddr(),
            M::spec_levels(),
            self.borrowed(),
            self.nodes(),
        )
    }

    /// Whether the architecture has a number of levels that this page table
    /// can walk: three or four.
    pub open spec fn levels_supported() -> bool {
        M::spec_levels() == 3 || M::spec_levels() == 4
    }

    /// What a query of `vaddr` answers when the frames are `frames`.
    pub open spec fn query_in(&self, frames: Map<usize, Seq<u64>>, vaddr: usize) -> Result<
        (usize, MappingFlags, PageSize),
        PagingError,
    > {
        spec_query::<PTE>(frames, self.spec_root_paddr(), M::spec_levels(), vaddr)
    }

    /// Creates a new page table instance or returns the error.
    ///
    /// It will allocate a new page for the root page table.
    pub fn try_new(handler: &mut H) -> (r: Result<Self, PagingError>)
        requires
            old(handler).inv(),
        ensures
            final(handler).inv(),
            match r {
                Ok(table) => {
                    &&& !old(handler).frames().contains_key(table.spec_root_paddr())
                    &&& final(handler).frames() == old(handler).frames().insert(
                        table.spec_root_paddr(),
                        zero_words(),
                    )
                    &&& table.borrowed() == Set::<usize>::empty()
                    &&& table.owned() == set![table.spec_root_paddr()]
                    &&& Self::levels_supported() && PTE::spec_holds_table(table.spec_root_paddr())
                        ==> table.wf(final(handler).frames())
                },
                Err(err) => err == PagingError::NoMemory && final(handler).frames() == old(
                    handler,
                ).frames(),
            },
    {
        let root_paddr: usize = alloc_table(handler)?;
        let ghost nodes = Map::<usize, TableNode>::empty().insert(
            root_paddr,
            TableNode { level: 0, parent: 0, index: 0 },
        );
        let table = PageTable64 {
            root_paddr,
            borrowed_entries: slots_new(),
            nodes: Ghost(nodes),
            _phantom: PhantomData,
        };
        proof {
            assert(table.owned() =~= set![root_paddr]);
            if Self::levels_supported() && PTE::spec_holds_table(root_paddr) {
                PTE::lemma_zero();
                let frames = handler.frames();
                assert forall|t: usize, i: usize|
                    nodes.contains_key(t) && i < ENTRY_COUNT implies (
                #[trigger] crate::walk64::child_table::<PTE>(frames, t, i)) is Err by {
                    assert(frames[root_paddr][i as int] == 0);
                }
            }
        }
        Ok(table)
    }

    /// Returns the physical address of the root page table.
    pub fn root_paddr(&self) -> (r: usize)
        ensures
            r == self.spec_root_paddr(),
    {
        self.root_paddr
    }

    /// Queries the result of the mapping starting at `vaddr`.
    ///
    /// Returns the physical address of the target frame, mapping flags, and
    /// the page size.
    ///
    /// Returns [`Err(PagingError::NotMapped)`](PagingError::NotMapped) if the
    /// mapping is not present.
    pub fn query(&self, handler: &H, vaddr: usize) -> (r: Result<
        (usize, MappingFlags, PageSize),
        PagingError,
    >)
        requires
            handler.inv(),
            Self::levels_supported(),
        ensures
            r == self.query_in(handler.frames(), vaddr),
    {
        query_page::<PTE, H>(handler, self.root_paddr, M::levels(), vaddr)
    }

    /// Walk the page table recursively.
    ///
    /// Every present entry is reported before the table below it if `pre` is
    /// set, and after it if `post` is set, with its level (starting with
    /// `0`), its index in the table of that level, the virtual address that
    /// is mapped to it, and the entry itself. The max number of enumerations
    /// in one table is limited by `limit`.
    pub fn walk(&self, handler: &H, limit: usize, pre: bool, post: bool) -> (r: Vec<WalkVisit<PTE>>)
        requires
            handler.inv(),
            Self::levels_supported(),
        ensures
            r@ == spec_walk::<PTE>(
                handler.frames(),
                M::spec_levels(),
                self.spec_root_paddr(),
                0,
                0,
                limit,
                pre,
                post,
                false,
                0,
                0,
            ).visits,
    {
        let mut visits: Vec<WalkVisit<PTE>> = Vec::new();
        let _ = walk_recursive::<PTE, H>(
            handler,
            M::levels(),
            self.root_paddr,
            0,
            0,
            limit,
            pre,
            post,
            false,
            &mut visits,
        );
        proof {
            let out = spec_walk::<PTE>(
                handler.frames(),
                M::spec_levels(),
                self.spec_root_paddr(),
                0,
                0,
                limit,
                pre,
                post,
                false,
                0,
                0,
            );
            assert(Seq::<WalkVisit<PTE>>::empty() + out.visits =~= out.visits);
        }
        visits
    }

    /// The index that the root table has for `vaddr`.
    pub open spec fn spec_root_index(vaddr: usize) -> usize {
        if M::spec_levels() == 3 {
            spec_p3_index(vaddr)
        } else {
            spec_p4_index(vaddr)
        }
    }

    /// The index that the root table has for `vaddr`.
    pub fn root_index(vaddr: usize) -> (r: usize)
        ensures
            r == Self::spec_root_index(vaddr),
            r < ENTRY_COUNT,
    {
        if M::levels() == 3 {
            p3_index(vaddr)
        } else {
            p4_index(vaddr)
        }
    }

    /// Destroys the page table: frees the tables below every slot of the root
    /// table that is not on loan, each table after the tables below it, and
    /// then the root table. The frames that the pages map are not touched:
    /// they belong to the caller.
    ///
    /// A well formed tree frees exactly the tables that it owns: the root
    /// table and the tables that were made for its mappings.
    #[verifier::rlimit(50)]
    pub fn destroy(self, handler: &mut H)
        requires
            old(handler).inv(),
            Self::levels_supported(),
        ensures
            final(handler).inv(),
            frames_freed(old(handler).frames(), final(handler).frames()),
            !final(handler).frames().contains_key(self.spec_root_paddr()),
            self.wf(old(handler).frames()) ==> final(handler).frames() == old(
                handler,
            ).frames().remove_keys(self.owned()),
    {
        let ghost before = handler.frames();
        let ghost root = self.spec_root_paddr();
        let ghost nodes = self.nodes();
        let ghost borrowed = self.borrowed();
        let ghost owned = self.wf(before);
        let levels: usize = M::levels();
        proof {
            handler.lemma_inv();
            if owned {
                lemma_below_all::<PTE>(before, root, levels, borrowed, nodes, root);
                assert(before.remove_keys(below(nodes, root, 0)) =~= before);
                assert forall|t: usize| #[trigger] under(nodes, t, root) implies before.contains_key(
                    t,
                ) by {
                    assert(node_ok::<PTE>(before, root, levels, borrowed, nodes, t));
                }
            }
        }
        let mut i: usize = 0;
        while i < ENTRY_COUNT
            invariant
                handler.inv(),
                i <= ENTRY_COUNT,
                levels == M::spec_levels(),
                Self::levels_supported(),
                before == old(handler).frames(),
                root == self.spec_root_paddr(),
                nodes == self.nodes(),
                borrowed == self.borrowed(),
                owned == self.wf(before),
                crate::handler::frames_well_formed(before),
                owned ==> intact(before, before, nodes, root),
                frames_freed(before, handler.frames()),
                owned ==> handler.frames() == before.remove_keys(below(nodes, root, i)),
            decreases ENTRY_COUNT - i,
        {
            let ghost step = handler.frames();
            let on_loan: bool = slots_get(&self.borrowed_entries, i);
            proof {
                if owned && on_loan {
                    lemma_freed_next::<PTE>(
                        before,
                        step,
                        step,
                        before,
                        root,
                        levels,
                        borrowed,
                        nodes,
                        root,
                        i,
                    );
                }
            }
            if !on_loan {
                proof {
                    if owned {
                        assert(crate::owned64::ancestor(nodes, root, 0) == root);
                        assert(!below(nodes, root, i).contains(root));
                        assert(step.contains_key(root) && step[root] == before[root]);
                    }
                }
                match read_entry::<PTE, H>(handler, self.root_paddr, i) {
                    Some(entry) => {
                        match next_table(&entry) {
                            Ok(child) => {
                                proof {
                                    if owned {
                                        lemma_freed_next::<PTE>(
                                            before,
                                            step,
                                            step.remove_keys(subtree(nodes, child)),
                                            before,
                                            root,
                                            levels,
                                            borrowed,
                                            nodes,
                                            root,
                                            i,
                                        );
                                    }
                                }
                                dealloc_tree::<PTE, H>(
                                    handler,
                                    levels,
                                    child,
                                    1,
                                    Ghost(root),
                                    Ghost(borrowed),
                                    Ghost(nodes),
                                    Ghost(before),
                                );
                            },
                            Err(_) => {
                                proof {
                                    if owned {
                                        lemma_freed_next::<PTE>(
                                            before,
                                            step,
                                            step,
                                            before,
                                            root,
                                            levels,
                                            borrowed,
                                            nodes,
                                            root,
                                            i,
                                        );
                                    }
                                }
                            },
                        }
                    },
                    None => {},
                }
            }
            i = i + 1;
        }
        crate::handler::free_frame(handler, self.root_paddr);
        proof {
            if owned {
                assert(handler.frames() =~= before.remove_keys(nodes.dom()));
            }
        }
    }

    /// Gets a cursor to modify the page table.
    ///
    /// The cursor takes the table for the time of the editing, and
    /// [`PageTable64Cursor::finish`] gives it back.
    pub fn cursor(self) -> (r: PageTable64Cursor<M, PTE, H>)
        ensures
            r.table() == self,
            r.pending() == Pending::Empty,
    {
        PageTable64Cursor::new(self)
    }
}

/// The state of the accumulator after the starts of the pages that `steps`
/// edited were recorded, in order.
pub open spec fn pushed_all(state: Pending, steps: Seq<RegionStep>) -> Pending
    decreases steps.len(),
{
    if steps.len() == 0 {
        state
    } else if steps.last().edited {
        pushed(pushed_all(state, steps.drop_last()), steps.last().vaddr)
    } else {
        pushed_all(state, steps.drop_last())
    }
}

/// A cursor created by [`PageTable64::cursor`] to modify the page table.
pub struct PageTable64Cursor<M: PagingMetaData, PTE: GenericPTE, H: PagingHandler> {
    inner: PageTable64<M, PTE, H>,
    flusher: TlbFlusher,
}

impl<M: PagingMetaData, PTE: GenericPTE, H: PagingHandler> PageTable64Cursor<M, PTE, H> {
    /// The table that the cursor edits.
    pub closed spec fn table(&self) -> PageTable64<M, PTE, H> {
        self.inner
    }

    /// The addresses that were edited since the last commit.
    pub closed spec fn pending(&self) -> Pending {
        self.flusher@
    }

    /// A cursor for `inner` with nothing recorded.
    fn new(inner: PageTable64<M, PTE, H>) -> (r: Self)
        ensures
            r.table() == inner,
            r.pending() == Pending::Empty,
    {
        PageTable64Cursor { inner, flusher: TlbFlusher::new() }
    }

    /// The table that the cursor edits, for queries.
    pub fn inner(&self) -> (r: &PageTable64<M, PTE, H>)
        ensures
            *r == self.table(),
    {
        &self.inner
    }

    /// Ends the editing: commits what is pending and gives the table back,
    /// with the invalidations that the caller has to carry out.
    pub fn finish(self) -> (r: (PageTable64<M, PTE, H>, Vec<Option<usize>>))
        ensures
            r.0 == self.table(),
            r.1@ == flush_requests(self.pending()),
    {
        let mut cursor = self;
        let requests = cursor.flusher.flush();
        (cursor.inner, requests)
    }

    /// Records that the translation of `vaddr` changed.
    fn push(&mut self, vaddr: usize)
        ensures
            final(self).table() == old(self).table(),
            final(self).pending() == pushed(old(self).pending(), vaddr),
    {
        self.flusher.push(vaddr);
    }

    /// Maps a virtual page to a physical frame with the given `page_size`
    /// and mapping `flags`.
    ///
    /// The virtual page starts at `vaddr`, and the physical frame starts at
    /// `target`. If the `target` is not aligned to the `page_size`, it will be
    /// aligned down automatically.
    ///
    /// Returns [`Err(PagingError::AlreadyMapped)`](PagingError::AlreadyMapped)
    /// if the mapping is already present.
    pub fn map(
        &mut self,
        handler: &mut H,
        vaddr: usize,
        target: usize,
        page_size: PageSize,
        flags: MappingFlags,
    ) -> (r: Result<(), PagingError>)
        requires
            old(handler).inv(),
            PageTable64::<M, PTE, H>::levels_supported(),
            page_size != PageSize::Size1M,
        ensures
            final(handler).inv(),
            final(self).table().spec_root_paddr() == old(self).table().spec_root_paddr(),
            final(self).table().borrowed() == old(self).table().borrowed(),
            map_outcome::<PTE>(
                old(handler).frames(),
                final(handler).frames(),
                old(self).table().spec_root_paddr(),
                M::spec_levels(),
                vaddr,
                page_entry::<PTE>(target, page_size, flags),
                page_size,
                r,
            ),
            map_owned::<PTE>(
                old(handler).frames(),
                final(handler).frames(),
                old(self).table().spec_root_paddr(),
                M::spec_levels(),
                old(self).table().borrowed(),
                old(self).table().nodes(),
                final(self).table().nodes(),
                vaddr,
                page_entry::<PTE>(target, page_size, flags),
                page_size,
                r,
            ),
            final(self).pending() == if r is Ok {
                pushed(old(self).pending(), vaddr)
            } else {
                old(self).pending()
            },
    {
        let ghost borrowed = self.inner.borrowed();
        map_page::<PTE, H>(
            handler,
            self.inner.root_paddr,
            M::levels(),
            vaddr,
            target,
            page_size,
            flags,
            Ghost(borrowed),
            &mut self.inner.nodes,
        )?;
        self.push(vaddr);
        Ok(())
    }

    /// Remaps the mapping starting at `vaddr`, updates both the physical
    /// address and flags.
    ///
    /// Returns the page size of the mapping.
    ///
    /// Returns [`Err(PagingError::NotMapped)`](PagingError::NotMapped) if the
    /// intermediate level tables of the mapping is not present.
    pub fn remap(&mut self, handler: &mut H, vaddr: usize, paddr: usize, flags: MappingFlags) -> (r:
        Result<PageSize, PagingError>)
        requires
            old(handler).inv(),
            PageTable64::<M, PTE, H>::levels_supported(),
        ensures
            final(handler).inv(),
            final(self).table() == old(self).table(),
            old(self).table().wf(old(handler).frames()) && !old(self).table().borrowed().contains(
                spec_root_index(vaddr, M::spec_levels()),
            ) && !flags.spec_is_empty() ==> final(self).table().wf(final(handler).frames()),
            remap_outcome::<PTE>(
                old(handler).frames(),
                final(handler).frames(),
                old(self).table().spec_root_paddr(),
                M::spec_levels(),
                vaddr,
                paddr,
                flags,
                r,
            ),
            final(self).pending() == if r is Ok {
                pushed(old(self).pending(), vaddr)
            } else {
                old(self).pending()
            },
    {
        let ghost before = handler.frames();
        let remapped = remap_page::<PTE, H>(
            handler,
            self.inner.root_paddr,
            M::levels(),
            vaddr,
            paddr,
            flags,
        );
        proof {
            if self.table().wf(before) && !self.table().borrowed().contains(
                spec_root_index(vaddr, M::spec_levels()),
            ) && !flags.spec_is_empty() {
                lemma_remap_wf::<PTE>(
                    before,
                    handler.frames(),
                    self.table().spec_root_paddr(),
                    M::spec_levels(),
                    self.table().borrowed(),
                    self.table().nodes(),
                    vaddr,
                    paddr,
                    flags,
                    remapped,
                );
            }
        }
        let size = remapped?;
        self.push(vaddr);
        Ok(size)
    }

    /// Updates the flags of the mapping starting at `vaddr`.
    ///
    /// Returns the page size of the mapping.
    ///
    /// Returns [`Err(PagingError::NotMapped)`](PagingError::NotMapped) if the
    /// mapping is not present.
    pub fn protect(&mut self, handler: &mut H, vaddr: usize, flags: MappingFlags) -> (r: Result<
        PageSize,
        PagingError,
    >)
        requires
            old(handler).inv(),
            PageTable64::<M, PTE, H>::levels_supported(),
        ensures
            final(handler).inv(),
            final(self).table() == old(self).table(),
            old(self).table().wf(old(handler).frames()) && !old(self).table().borrowed().contains(
                spec_root_index(vaddr, M::spec_levels()),
            ) && !flags.spec_is_empty() ==> final(self).table().wf(final(handler).frames()),
            protect_outcome::<PTE>(
                old(handler).frames(),
                final(handler).frames(),
                old(self).table().spec_root_paddr(),
                M::spec_levels(),
                vaddr,
                flags,
                r,
            ),
            final(self).pending() == if r is Ok {
                pushed(old(self).pending(), vaddr)
            } else {
                old(self).pending()
            },
    {
        let ghost before = handler.frames();
        let protected = protect_page::<PTE, H>(
            handler,
            self.inner.root_paddr,
            M::levels(),
            vaddr,
            flags,
        );
        proof {
            if self.table().wf(before) && !self.table().borrowed().contains(
                spec_root_index(vaddr, M::spec_levels()),
            ) && !flags.spec_is_empty() {
                lemma_protect_wf::<PTE>(
                    before,
                    handler.frames(),
                    self.table().spec_root_paddr(),
                    M::spec_levels(),
                    self.table().borrowed(),
                    self.table().nodes(),
                    vaddr,
                    flags,
                    protected,
                );
            }
        }
        let size = protected?;
        self.push(vaddr);
        Ok(size)
    }

    /// Unmaps the mapping starting at `vaddr`.
    ///
    /// Returns [`Err(PagingError::NotMapped)`](PagingError::NotMapped) if the
    /// mapping is not present.
    pub fn unmap(&mut self, handler: &mut H, vaddr: usize) -> (r: Result<
        (usize, MappingFlags, PageSize),
        PagingError,
    >)
        requires
            old(handler).inv(),
            PageTable64::<M, PTE, H>::levels_supported(),
        ensures
            final(handler).inv(),
            final(self).table() == old(self).table(),
            old(self).table().wf(old(handler).frames()) && !old(self).table().borrowed().contains(
                spec_root_index(vaddr, M::spec_levels()),
            ) ==> final(self).table().wf(final(handler).frames()),
            unmap_outcome::<PTE>(
                old(handler).frames(),
                final(handler).frames(),
                old(self).table().spec_root_paddr(),
                M::spec_levels(),
                vaddr,
                r,
            ),
            final(self).pending() == if r is Ok {
                pushed(old(self).pending(), vaddr)
            } else {
                old(self).pending()
            },
    {
        let ghost before = handler.frames();
        let unmapped = unmap_page::<PTE, H>(handler, self.inner.root_paddr, M::levels(), vaddr);
        proof {
            if self.table().wf(before) && !self.table().borrowed().contains(
                spec_root_index(vaddr, M::spec_levels()),
            ) {
                lemma_unmap_wf::<PTE>(
                    before,
                    handler.frames(),
                    self.table().spec_root_paddr(),
                    M::spec_levels(),
                    self.table().borrowed(),
                    self.table().nodes(),
                    vaddr,
                    unmapped,
                );
            }
        }
        let mapping = unmapped?;
        self.push(vaddr);
        Ok(mapping)
    }

    /// Records the start of every page that `steps` edited.
    fn push_steps(&mut self, steps: &Vec<RegionStep>)
        ensures
            final(self).table() == old(self).table(),
            final(self).pending() == pushed_all(old(self).pending(), steps@),
    {
        let mut i: usize = 0;
        while i < steps.len()
            invariant
                i <= steps.len(),
                self.table() == old(self).table(),
                self.pending() == pushed_all(old(self).pending(), steps@.take(i as int)),
            decreases steps.len() - i,
        {
            if steps[i].edited {
                self.push(steps[i].vaddr);
            }
            proof {
                assert(steps@.take(i + 1).drop_last() =~= steps@.take(i as int));
            }
            i = i + 1;
        }
        assert(steps@.take(steps.len() as int) =~= steps@);
    }

    /// Maps a contiguous virtual memory region to a contiguous physical memory
    /// region with the given mapping `flags`.
    ///
    /// The virtual and physical memory regions start at `vaddr` and `paddr`
    /// respectively. The region size is `size`. The addresses and `size` must
    /// be aligned to 4K, otherwise it will return
    /// [`Err(PagingError::NotAligned)`].
    ///
    /// When `allow_huge` is true, it will try to map the region with huge pages
    /// if possible. Otherwise, it will map the region with 4K pages.
    ///
    /// [`Err(PagingError::NotAligned)`]: PagingError::NotAligned
    pub fn map_region<F: Fn(usize) -> usize>(
        &mut self,
        handler: &mut H,
        vaddr: usize,
        get_paddr: F,
        size: usize,
        flags: MappingFlags,
        allow_huge: bool,
    ) -> (r: Result<(), PagingError>)
        requires
            old(handler).inv(),
            PageTable64::<M, PTE, H>::levels_supported(),
            vaddr + size <= usize::MAX,
            forall|v: usize| get_paddr.requires((v,)),
        ensures
            final(handler).inv(),
            final(self).table().spec_root_paddr() == old(self).table().spec_root_paddr(),
            final(self).table().borrowed() == old(self).table().borrowed(),
            region_owned::<PTE>(
                old(handler).frames(),
                final(handler).frames(),
                old(self).table().spec_root_paddr(),
                M::spec_levels(),
                old(self).table().borrowed(),
                old(self).table().nodes(),
                final(self).table().nodes(),
                vaddr,
                size,
                flags,
            ),
            exists|steps: Seq<RegionStep>|
                {
                    &&& #[trigger] map_region_outcome::<PTE, F>(
                        old(handler).frames(),
                        final(handler).frames(),
                        old(self).table().spec_root_paddr(),
                        M::spec_levels(),
                        vaddr,
                        get_paddr,
                        size,
                        flags,
                        allow_huge,
                        None,
                        steps,
                        r,
                    )
                    &&& final(self).pending() == pushed_all(old(self).pending(), steps)
                },
    {
        let ghost before = handler.frames();
        let mut shared = SharedTables::none();
        let ghost borrowed = self.inner.borrowed();
        let (steps, r) = map_region_pages::<PTE, H, F>(
            handler,
            self.inner.root_paddr,
            M::levels(),
            &mut shared,
            vaddr,
            get_paddr,
            size,
            flags,
            allow_huge,
            Ghost(borrowed),
            &mut self.inner.nodes,
        );
        self.push_steps(&steps);
        assert(map_region_outcome::<PTE, F>(
            before,
            handler.frames(),
            old(self).table().spec_root_paddr(),
            M::spec_levels(),
            vaddr,
            get_paddr,
            size,
            flags,
            allow_huge,
            None,
            steps@,
            r,
        ));
        r
    }

    /// Unmaps a contiguous virtual memory region.
    ///
    /// The region must be mapped before using [`Self::map_region`]. It can
    /// deal with huge pages automatically. The address and `size` must be
    /// aligned to 4K, and a huge page must lie in the region as a whole,
    /// otherwise it will return [`Err(PagingError::NotAligned)`].
    ///
    /// [`Err(PagingError::NotAligned)`]: PagingError::NotAligned
    pub fn unmap_region(&mut self, handler: &mut H, vaddr: usize, size: usize) -> (r: Result<
        (),
        PagingError,
    >)
        requires
            old(handler).inv(),
            PageTable64::<M, PTE, H>::levels_supported(),
            vaddr + size <= usize::MAX,
        ensures
            final(handler).inv(),
            final(self).table() == old(self).table(),
            old(self).table().wf(old(handler).frames()) && range_not_on_loan(
                old(self).table().borrowed(),
                M::spec_levels(),
                vaddr,
                size,
            ) ==> final(self).table().wf(final(handler).frames()),
            ({
                let out = unmap_region_outcome::<PTE>(
                    old(handler).frames(),
                    old(self).table().spec_root_paddr(),
                    M::spec_levels(),
                    vaddr,
                    size,
                );
                &&& final(handler).frames() == out.frames
                &&& r == out.result
                &&& final(self).pending() == pushed_all(old(self).pending(), out.steps)
            }),
    {
        proof {
            if vaddr % 0x1000 == 0 && size % 0x1000 == 0 && self.table().wf(handler.frames())
                && range_not_on_loan(self.table().borrowed(), M::spec_levels(), vaddr, size) {
                lemma_unmap_region_wf::<PTE>(
                    handler.frames(),
                    self.table().spec_root_paddr(),
                    M::spec_levels(),
                    self.table().borrowed(),
                    self.table().nodes(),
                    vaddr,
                    size,
                );
            }
        }
        let (steps, r) = unmap_region_pages::<PTE, H>(
            handler,
            self.inner.root_paddr,
            M::levels(),
            vaddr,
            size,
        );
        self.push_steps(&steps);
        r
    }

    /// Updates mapping flags of a contiguous virtual memory region.
    ///
    /// The region must be mapped before using [`Self::map_region`]. It can
    /// deal with huge pages automatically, and it skips what is not mapped.
    /// The address and `size` must be aligned to 4K, and a huge page must lie
    /// in the region as a whole, otherwise it will return
    /// [`Err(PagingError::NotAligned)`].
    ///
    /// [`Err(PagingError::NotAligned)`]: PagingError::NotAligned
    pub fn protect_region(
        &mut self,
        handler: &mut H,
        vaddr: usize,
        size: usize,
        flags: MappingFlags,
    ) -> (r: Result<(), PagingError>)
        requires
            old(handler).inv(),
            PageTable64::<M, PTE, H>::levels_supported(),
            vaddr + size <= usize::MAX,
        ensures
            final(handler).inv(),
            final(self).table() == old(self).table(),
            old(self).table().wf(old(handler).frames()) && range_not_on_loan(
                old(self).table().borrowed(),
                M::spec_levels(),
                vaddr,
                size,
            ) && !flags.spec_is_empty() ==> final(self).table().wf(final(handler).frames()),
            ({
                let out = protect_region_outcome::<PTE>(
                    old(handler).frames(),
                    old(self).table().spec_root_paddr(),
                    M::spec_levels(),
                    vaddr,
                    size,
                    flags,
                );
                &&& final(handler).frames() == out.frames
                &&& r == out.result
                &&& final(self).pending() == pushed_all(old(self).pending(), out.steps)
            }),
    {
        proof {
            if vaddr % 0x1000 == 0 && size % 0x1000 == 0 && self.table().wf(handler.frames())
                && range_not_on_loan(self.table().borrowed(), M::spec_levels(), vaddr, size)
                && !flags.spec_is_empty() {
                lemma_protect_region_wf::<PTE>(
                    handler.frames(),
                    self.table().spec_root_paddr(),
                    M::spec_levels(),
                    self.table().borrowed(),
                    self.table().nodes(),
                    vaddr,
                    size,
                    flags,
                );
            }
        }
        let (steps, r) = protect_region_pages::<PTE, H>(
            handler,
            self.inner.root_paddr,
            M::levels(),
            vaddr,
            size,
            flags,
        );
        self.push_steps(&steps);
        r
    }

    /// Copy entries from another page table within the given virtual memory
    /// range.
    ///
    /// The descriptors of the root table that serve the range are replaced by
    /// those of the root table of `other`, and their slots are marked as on
    /// loan: what lies below them belongs to `other` and is not freed when
    /// this table is destroyed. The tables that lay below a slot that was
    /// not on loan before are freed. Every translation may have changed, so
    /// the next commit asks for all of them to be invalidated.
    #[verifier::rlimit(50)]
    pub fn copy_from(
        &mut self,
        handler: &mut H,
        other: &PageTable64<M, PTE, H>,
        start: usize,
        size: usize,
    )
        requires
            old(handler).inv(),
            PageTable64::<M, PTE, H>::levels_supported(),
            start + size <= usize::MAX,
        ensures
            final(handler).inv(),
            final(self).table().spec_root_paddr() == old(self).table().spec_root_paddr(),
            size == 0 ==> {
                &&& final(handler).frames() == old(handler).frames()
                &&& final(self).table() == old(self).table()
                &&& final(self).pending() == old(self).pending()
            },
            old(self).table().wf(old(handler).frames()) ==> {
                &&& final(self).table().wf(final(handler).frames())
                &&& final(self).table().owned().subset_of(old(self).table().owned())
                &&& final(handler).frames().dom() =~= old(handler).frames().dom().difference(
                    old(self).table().owned().difference(final(self).table().owned()),
                )
            },
            size > 0 ==> {
                let root = old(self).table().spec_root_paddr();
                let first = PageTable64::<M, PTE, H>::spec_root_index(start);
                let last = PageTable64::<M, PTE, H>::spec_root_index((start + size - 1) as usize);
                let before = old(handler).frames();
                let after = final(handler).frames();
                &&& final(self).pending() == Pending::Full
                &&& final(self).table().borrowed() =~= old(self).table().borrowed().union(
                    Set::new(|i: usize| first <= i <= last),
                )
                &&& after.dom().subset_of(before.dom())
                &&& forall|p: usize|
                    p != root && #[trigger] after.contains_key(p) ==> after[p] == before[p]
                &&& after.contains_key(root) ==> after[root].len() == before[root].len()
                &&& forall|i: usize|
                    after.contains_key(root) && i < after[root].len() && !(first <= i <= last)
                        ==> #[trigger] after[root][i as int] == before[root][i as int]
                &&& forall|i: usize|
                    after.contains_key(root) && after.contains_key(other.spec_root_paddr())
                        && other.spec_root_paddr() != root && first <= i <= last && i
                        < after[root].len() ==> #[trigger] after[root][i as int]
                        == before[other.spec_root_paddr()][i as int]
            },
    {
        if size == 0 {
            return ;
        }
        let ghost before = handler.frames();
        let ghost borrowed = self.inner.borrowed();
        let ghost kept = self.inner.nodes();
        let ghost formed = self.table().wf(before);
        let root: usize = self.inner.root_paddr;
        let levels: usize = M::levels();
        let start_idx: usize = PageTable64::<M, PTE, H>::root_index(start);
        let end_idx: usize = PageTable64::<M, PTE, H>::root_index(start + size - 1) + 1;
        proof {
            handler.lemma_inv();
            assert(before.dom() =~= before.dom().difference(kept.dom().difference(kept.dom())));
        }
        let mut i: usize = start_idx;
        while i < end_idx
            invariant
                handler.inv(),
                levels == M::spec_levels(),
                PageTable64::<M, PTE, H>::levels_supported(),
                end_idx <= ENTRY_COUNT,
                start_idx <= i,
                i <= end_idx || i == start_idx,
                crate::handler::frames_well_formed(before),
                root == self.inner.root_paddr,
                self.table().spec_root_paddr() == old(self).table().spec_root_paddr(),
                self.pending() == old(self).pending(),
                self.inner.borrowed() =~= borrowed.union(
                    Set::new(|k: usize| start_idx <= k < i),
                ),
                formed ==> {
                    &&& self.table().wf(handler.frames())
                    &&& self.inner.nodes().dom().subset_of(kept.dom())
                    &&& handler.frames().dom() =~= before.dom().difference(
                        kept.dom().difference(self.inner.nodes().dom()),
                    )
                },
                handler.frames().dom().subset_of(before.dom()),
                forall|p: usize|
                    p != root && #[trigger] handler.frames().contains_key(p)
                        ==> handler.frames()[p] == before[p],
                handler.frames().contains_key(root) ==> handler.frames()[root].len()
                    == before[root].len(),
                forall|k: usize|
                    handler.frames().contains_key(root) && k < handler.frames()[root].len() && !(
                    start_idx <= k < i) ==> #[trigger] handler.frames()[root][k as int]
                        == before[root][k as int],
                forall|k: usize|
                    handler.frames().contains_key(root) && handler.frames().contains_key(
                        other.spec_root_paddr(),
                    ) && other.spec_root_paddr() != root && start_idx <= k < i && k
                        < handler.frames()[root].len() ==> #[trigger] handler.frames()[root][k as int]
                        == before[other.spec_root_paddr()][k as int],
            decreases end_idx - i,
        {
            let ghost frames_then = handler.frames();
            let ghost borrowed_then = self.inner.borrowed();
            let ghost nodes_then = self.inner.nodes();
            let ghost formed_then = formed;
            proof {
                handler.lemma_inv();
            }
            if !slots_set(&mut self.inner.borrowed_entries, i, true) {
                match read_entry::<PTE, H>(handler, root, i) {
                    Some(entry) => {
                        match next_table(&entry) {
                            Ok(child) => {
                                proof {
                                    if formed_then {
                                        assert(nodes_then.contains_key(child));
                                        assert forall|t: usize| #[trigger]
                                            under(nodes_then, t, child) implies frames_then.contains_key(
                                            t,
                                        ) by {
                                            assert(node_ok::<PTE>(
                                                frames_then,
                                                root,
                                                levels,
                                                borrowed_then,
                                                nodes_then,
                                                t,
                                            ));
                                        }
                                        assert(node_ok::<PTE>(
                                            frames_then,
                                            root,
                                            levels,
                                            borrowed_then,
                                            nodes_then,
                                            child,
                                        ));
                                    }
                                }
                                dealloc_tree::<PTE, H>(
                                    handler,
                                    levels,
                                    child,
                                    1,
                                    Ghost(root),
                                    Ghost(borrowed_then),
                                    Ghost(nodes_then),
                                    Ghost(frames_then),
                                );
                            },
                            Err(_) => {},
                        }
                    },
                    None => {},
                }
            }
            let ghost freed = handler.frames();
            let ghost gone = hanging::<PTE>(frames_then, root, borrowed_then, nodes_then, i);
            proof {
                if formed_then {
                    assert(node_ok::<PTE>(
                        frames_then,
                        root,
                        levels,
                        borrowed_then,
                        nodes_then,
                        root,
                    ));
                    assert(freed =~= frames_then.remove_keys(gone));
                }
            }
            let copied: Option<u64> = handler.read(other.root_paddr, i);
            match copied {
                Some(word) => {
                    handler.write(root, i, word);
                },
                None => {},
            }
            proof {
                *self.inner.nodes.borrow_mut() = nodes_then.remove_keys(gone);
                if formed_then {
                    lemma_copied_wf::<PTE>(
                        frames_then,
                        freed,
                        handler.frames(),
                        root,
                        levels,
                        borrowed_then,
                        nodes_then,
                        i,
                        copied,
                    );
                    assert(self.inner.borrowed() =~= borrowed_then.insert(i));
                }
            }
            i = i + 1;
        }
        self.flusher.fill();
    }

    /// Flushes the TLB according to the recorded flush requests: returns the
    /// invalidations that the caller has to carry out, in order, and forgets
    /// them. `Some` of an address asks for the translation of that address,
    /// `None` for all translations.
    pub fn flush(&mut self) -> (requests: Vec<Option<usize>>)
        ensures
            final(self).table() == old(self).table(),
            requests@ == flush_requests(old(self).pending()),
            final(self).pending() == Pending::Empty,
    {
        self.flusher.flush()
    }
}

} // verus!
