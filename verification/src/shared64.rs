//! Tables of the second level that several trees of four levels share.
//!
//! A tree may name a range of virtual addresses whose tables it shares with
//! the trees that are copied from it. Before the first page in the shared
//! part is mapped, every descriptor of the root table that serves the range
//! gets a table, so that a copy of the root table points to the same tables
//! as the tree that it was copied from.

use vstd::prelude::*;
use crate::{PageSize, PagingError};
use crate::entry::{GenericPTE, MappingFlags};
use crate::handler::PagingHandler;
use crate::owned64::TableNode;
use crate::walk64::{
    child_table, frames_fit, lemma_in_use, lemma_unused_changed_twice, map_outcome, map_owned,
    map_page, only_unused_changed, p4_index, page_entry, spec_p4_index, step_down,
};

verus! {

/// The number of addresses that one descriptor of the root table of a tree
/// of four levels serves: 512GB.
pub const P4E_ADDR_RANGE: u64 = 0x80_0000_0000;

/// Below this address everything is shared: the low memory region.
pub const SHARED_LOW_END: u64 = 0x20_0000;

/// From this address on everything is shared.
pub const SHARED_HIGH_START: u64 = 0x5000_0000_0000;

/// What a tree shares: the range of virtual addresses that it was made with,
/// from `start` to before `end`, and whether the descriptors of the root
/// table for the range have their tables.
pub struct SharedTables {
    /// The range, if the tree shares anything.
    pub range: Option<(usize, usize)>,
    /// Whether the tables for the range were made.
    pub initialized: bool,
}

/// Whether both ends of a range are multiples of 512GB.
pub open spec fn spec_range_aligned(range: (usize, usize)) -> bool {
    (range.0 as u64) % P4E_ADDR_RANGE == 0 && (range.1 as u64) % P4E_ADDR_RANGE == 0
}

/// Whether both ends of a range are multiples of 512GB.
pub fn range_aligned(range: (usize, usize)) -> (r: bool)
    ensures
        r == spec_range_aligned(range),
{
    (range.0 as u64) % P4E_ADDR_RANGE == 0 && (range.1 as u64) % P4E_ADDR_RANGE == 0
}

impl SharedTables {
    /// Whether the tables on the way to `vaddr` are shared: whether the tree
    /// shares anything, and `vaddr` lies in the low memory region, in the
    /// range, or from `SHARED_HIGH_START` on.
    pub open spec fn spec_is_shared(&self, vaddr: usize) -> bool {
        match self.range {
            Some((start, end)) => vaddr as u64 >= SHARED_HIGH_START || (start <= vaddr && vaddr
                < end) || (vaddr as u64) < SHARED_LOW_END,
            None => false,
        }
    }

    /// Whether the tables for the range have to be made before a page at
    /// `vaddr` is mapped.
    pub open spec fn needs_tables(&self, vaddr: usize) -> bool {
        self.spec_is_shared(vaddr) && !self.initialized
    }

    /// Nothing is shared.
    pub fn none() -> (r: SharedTables)
        ensures
            r.range is None,
            !r.initialized,
    {
        SharedTables { range: None, initialized: false }
    }

    /// Whether the tables on the way to `vaddr` are shared.
    pub fn is_shared(&self, vaddr: usize) -> (r: bool)
        ensures
            r == self.spec_is_shared(vaddr),
    {
        match self.range {
            // The low and the high region are fixed for now.
            Some((start, end)) => vaddr as u64 >= SHARED_HIGH_START || (start <= vaddr && vaddr
                < end) || (vaddr as u64) < SHARED_LOW_END,
            None => false,
        }
    }
}

/// What making the tables for a shared range does.
///
/// A tree of three levels has no descriptors to fill, and a range that is
/// not aligned to 512GB cannot be filled: both are refused with
/// `NotAligned`, and nothing changes. Else only unused descriptors change
/// and no frame goes away. After a success every descriptor of the root
/// table that serves the range points to a table, as long as table
/// descriptors can point to all the frames. A failure is that of the walk, or
/// `NoMemory`, and comes from a descriptor of the root table that serves the
/// range, as [`stops_filling`] says. Where every descriptor already points
/// to a table, the call succeeds and changes nothing.
pub open spec fn init_outcome<PTE: GenericPTE>(
    before: Map<usize, Seq<u64>>,
    after: Map<usize, Seq<u64>>,
    root: usize,
    levels: usize,
    range: (usize, usize),
    r: Result<(), PagingError>,
) -> bool {
    if levels == 3 || !spec_range_aligned(range) {
        r == Err::<(), PagingError>(PagingError::NotAligned) && after == before
    } else {
        &&& only_unused_changed::<PTE>(before, after)
        &&& before.dom().subset_of(after.dom())
        &&& r is Ok && frames_fit::<PTE>(after) ==> filled::<PTE>(after, root, range.0, range.1)
        &&& match r {
            Ok(_) => true,
            Err(err) => {
                &&& err == PagingError::NoMemory || err == PagingError::NotMapped || err
                    == PagingError::AlreadyMapped
                &&& exists|v: usize|
                    range.0 <= v < range.1 && #[trigger] stops_filling::<PTE>(after, root, v, err)
            },
        }
        &&& filled::<PTE>(before, root, range.0, range.1) ==> r is Ok && after == before
    }
}

/// The descriptor of the root table that serves `vaddr` stops the filling
/// with `err`: it is unused and memory ran out, or it points to no table and
/// `err` says why.
pub open spec fn stops_filling<PTE: GenericPTE>(
    frames: Map<usize, Seq<u64>>,
    root: usize,
    vaddr: usize,
    err: PagingError,
) -> bool {
    match crate::walk64::create_step::<PTE>(frames, root, spec_p4_index(vaddr)) {
        Ok(Some(_)) => false,
        Ok(None) => err == PagingError::NoMemory,
        Err(e) => err == e,
    }
}

/// Every descriptor of the root table that serves an address from `start` to
/// before `end` points to a table.
pub open spec fn filled<PTE: GenericPTE>(
    frames: Map<usize, Seq<u64>>,
    root: usize,
    start: usize,
    end: usize,
) -> bool {
    forall|v: usize|
        start <= v < end ==> (#[trigger] child_table::<PTE>(frames, root, spec_p4_index(v))) is Ok
}

/// The addresses that one descriptor of the root table serves have one index
/// in the root table.
pub proof fn lemma_same_block(base: usize, vaddr: usize)
    requires
        (base as u64) % P4E_ADDR_RANGE == 0,
        base <= vaddr,
        vaddr - base < P4E_ADDR_RANGE,
    ensures
        spec_p4_index(vaddr) == spec_p4_index(base),
{
    let b: u64 = base as u64;
    let v: u64 = vaddr as u64;
    assert(b % 0x80_0000_0000 == 0 && b <= v && v - b < 0x80_0000_0000 ==> (v >> 39) & 0x1ff == (b
        >> 39) & 0x1ff) by (bit_vector);
}

/// Initialize the P4E entries for the shared virtual address range: prefill
/// every P4E with the table of the next level. The frame of the root table
/// is copied when a tree is copied, while the next level page table is
/// shared among the trees.
#[verifier::rlimit(50)]
pub fn init_shared_vaddr_range_pgdir<PTE: GenericPTE, H: PagingHandler>(
    handler: &mut H,
    root: usize,
    levels: usize,
    shared: &mut SharedTables,
) -> (r: Result<(), PagingError>)
    requires
        old(handler).inv(),
        levels == 3 || levels == 4,
    ensures
        final(handler).inv(),
        final(shared).range == old(shared).range,
        match old(shared).range {
            Some(range) => {
                &&& init_outcome::<PTE>(
                    old(handler).frames(),
                    final(handler).frames(),
                    root,
                    levels,
                    range,
                    r,
                )
                &&& final(shared).initialized == (old(shared).initialized || r is Ok)
            },
            None => r is Ok && final(handler).frames() == old(handler).frames() && *final(shared)
                == *old(shared),
        },
{
    let (start, end) = match shared.range {
        Some(range) => range,
        None => { return Ok(()); },
    };
    if levels == 3 {
        return Err(PagingError::NotAligned);
    }
    if !range_aligned((start, end)) {
        return Err(PagingError::NotAligned);
    }
    let ghost f0 = handler.frames();
    let mut vaddr: usize = start;
    proof {
        assert(only_unused_changed::<PTE>(f0, f0));
        lemma_in_use::<PTE>();
    }
    while vaddr < end
        invariant
            handler.inv(),
            levels == 4,
            f0 == old(handler).frames(),
            *shared == *old(shared),
            shared.range == Some((start, end)),
            spec_range_aligned((start, end)),
            start <= vaddr,
            (vaddr as u64) % P4E_ADDR_RANGE == 0,
            (end as u64) % P4E_ADDR_RANGE == 0,
            only_unused_changed::<PTE>(f0, handler.frames()),
            f0.dom().subset_of(handler.frames().dom()),
            frames_fit::<PTE>(handler.frames()) ==> filled::<PTE>(
                handler.frames(),
                root,
                start,
                vaddr,
            ),
            filled::<PTE>(f0, root, start, end) ==> handler.frames() == f0,
        decreases end - vaddr,
    {
        let ghost f1 = handler.frames();
        let index: usize = p4_index(vaddr);
        proof {
            lemma_in_use::<PTE>();
            if filled::<PTE>(f0, root, start, end) {
                assert(child_table::<PTE>(f0, root, spec_p4_index(vaddr)) is Ok);
            }
        }
        // Prefill the P4E, allocate the physical frame for the next level page table.
        match step_down::<PTE, H>(handler, root, index) {
            Ok(_) => {},
            Err(err) => {
                proof {
                    lemma_unused_changed_twice::<PTE>(f0, f1, handler.frames());
                    assert(err == PagingError::NoMemory || err == PagingError::NotMapped || err
                        == PagingError::AlreadyMapped);
                    assert(stops_filling::<PTE>(handler.frames(), root, vaddr, err));
                }
                return Err(err);
            },
        }
        let ghost f2 = handler.frames();
        let next: u64 = vaddr as u64 + P4E_ADDR_RANGE;
        proof {
            lemma_unused_changed_twice::<PTE>(f0, f1, f2);
            lemma_in_use::<PTE>();
            if frames_fit::<PTE>(f2) {
                crate::region64::lemma_fit_subset::<PTE>(f1, f2);
                assert forall|v: usize| start <= v < next implies (#[trigger] child_table::<PTE>(
                    f2,
                    root,
                    spec_p4_index(v),
                )) is Ok by {
                    if v < vaddr {
                        assert(child_table::<PTE>(f1, root, spec_p4_index(v)) is Ok);
                    } else {
                        lemma_same_block(vaddr, v);
                    }
                }
            }
            assert((next as int) <= end) by {
                assert(vaddr as u64 % P4E_ADDR_RANGE == 0);
                assert(end as u64 % P4E_ADDR_RANGE == 0);
            }
        }
        vaddr = next as usize;
    }
    shared.initialized = true;
    proof {
        if frames_fit::<PTE>(handler.frames()) {
            assert(filled::<PTE>(handler.frames(), root, start, end));
        }
    }
    Ok(())
}

/// What mapping a page does in a tree that may share tables: `mid` are the
/// frames after the tables for the shared range were made, where that was
/// due, and `r` is the result.
///
/// Where the tables for the range are due, they are made first as
/// [`init_outcome`] says, and a failure of that is the failure of the
/// mapping. Then the page is mapped as [`map_outcome`] says.
pub open spec fn shared_map_outcome<PTE: GenericPTE>(
    before: Map<usize, Seq<u64>>,
    mid: Map<usize, Seq<u64>>,
    after: Map<usize, Seq<u64>>,
    root: usize,
    levels: usize,
    shared: SharedTables,
    initialized: bool,
    vaddr: usize,
    page: PTE,
    size: PageSize,
    r: Result<(), PagingError>,
) -> bool {
    if shared.needs_tables(vaddr) {
        exists|made: Result<(), PagingError>|
            {
                &&& #[trigger] init_outcome::<PTE>(
                    before,
                    mid,
                    root,
                    levels,
                    shared.range.unwrap(),
                    made,
                )
                &&& initialized == made is Ok
                &&& match made {
                    Ok(_) => map_outcome::<PTE>(mid, after, root, levels, vaddr, page, size, r),
                    Err(err) => r == Err::<(), PagingError>(err) && after == mid,
                }
            }
    } else {
        &&& mid == before
        &&& initialized == shared.initialized
        &&& map_outcome::<PTE>(before, after, root, levels, vaddr, page, size, r)
    }
}

/// Maps the page of `page_size` at `vaddr` to the frame that `target` lies
/// in, after the tables for the shared range were made where that is due.
#[verifier::rlimit(50)]
pub fn shared_map_page<PTE: GenericPTE, H: PagingHandler>(
    handler: &mut H,
    root: usize,
    levels: usize,
    shared: &mut SharedTables,
    vaddr: usize,
    target: usize,
    page_size: PageSize,
    flags: MappingFlags,
    Ghost(borrowed): Ghost<Set<usize>>,
    nodes: &mut Ghost<Map<usize, TableNode>>,
) -> (r: Result<(), PagingError>)
    requires
        old(handler).inv(),
        levels == 3 || levels == 4,
        page_size != PageSize::Size1M,
    ensures
        final(handler).inv(),
        final(shared).range == old(shared).range,
        old(shared).range is None ==> map_owned::<PTE>(
            old(handler).frames(),
            final(handler).frames(),
            root,
            levels,
            borrowed,
            old(nodes)@,
            final(nodes)@,
            vaddr,
            page_entry::<PTE>(target, page_size, flags),
            page_size,
            r,
        ),
        exists|mid: Map<usize, Seq<u64>>| #[trigger]
            shared_map_outcome::<PTE>(
                old(handler).frames(),
                mid,
                final(handler).frames(),
                root,
                levels,
                *old(shared),
                final(shared).initialized,
                vaddr,
                page_entry::<PTE>(target, page_size, flags),
                page_size,
                r,
            ),
{
    let ghost before = handler.frames();
    let ghost page = page_entry::<PTE>(target, page_size, flags);
    if shared.is_shared(vaddr) && !shared.initialized {
        match init_shared_vaddr_range_pgdir::<PTE, H>(handler, root, levels, shared) {
            Ok(_) => {},
            Err(err) => {
                proof {
                    assert(init_outcome::<PTE>(
                        before,
                        handler.frames(),
                        root,
                        levels,
                        old(shared).range.unwrap(),
                        Err(err),
                    ));
                    assert(shared_map_outcome::<PTE>(
                        before,
                        handler.frames(),
                        handler.frames(),
                        root,
                        levels,
                        *old(shared),
                        shared.initialized,
                        vaddr,
                        page,
                        page_size,
                        Err(err),
                    ));
                }
                return Err(err);
            },
        }
        let ghost mid = handler.frames();
        let r = map_page::<PTE, H>(
            handler,
            root,
            levels,
            vaddr,
            target,
            page_size,
            flags,
            Ghost(borrowed),
            nodes,
        );
        proof {
            assert(init_outcome::<PTE>(
                before,
                mid,
                root,
                levels,
                old(shared).range.unwrap(),
                Ok(()),
            ));
            assert(shared_map_outcome::<PTE>(
                before,
                mid,
                handler.frames(),
                root,
                levels,
                *old(shared),
                shared.initialized,
                vaddr,
                page,
                page_size,
                r,
            ));
        }
        r
    } else {
        let r = map_page::<PTE, H>(
            handler,
            root,
            levels,
            vaddr,
            target,
            page_size,
            flags,
            Ghost(borrowed),
            nodes,
        );
        proof {
            assert(shared_map_outcome::<PTE>(
                before,
                before,
                handler.frames(),
                root,
                levels,
                *old(shared),
                shared.initialized,
                vaddr,
                page,
                page_size,
                r,
            ));
        }
        r
    }
}

} // verus!
