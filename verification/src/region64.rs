//! Edits of a contiguous range of virtual addresses in a tree of three or
//! four levels: the range is cut into pages, and each page is edited as a
//! single page is.

use vstd::prelude::*;
use crate::{PageSize, PagingError};
use crate::entry::{GenericPTE, MappingFlags};
use crate::handler::PagingHandler;
use crate::owned64::{node_ok, spec_root_index, tree_wf, TableNode};
use crate::shared64::{init_outcome, shared_map_outcome, shared_map_page, SharedTables};
use crate::walk64::{
    lemma_cleared, locate, write_slot, Slot, entry_at, frames_fit, lemma_map_effect, map_owned,
    spec_next_table, lemma_query_preserved, lemma_unused_changed_twice, mapped_by,
    only_unused_changed, page_entry, protect_page, spec_p1_index, spec_p2_index, spec_p3_index,
    spec_p4_index, spec_protect_frames, spec_protect_result, spec_query, spec_unmap_frames,
    spec_unmap_result, top_table, translation, unmap_page,
};

verus! {

/// One page of a range that was edited.
#[derive(Clone, Copy, PartialEq, Eq, Structural, Debug)]
pub struct RegionStep {
    /// Where the page starts.
    pub vaddr: usize,
    /// The size of the page.
    pub size: PageSize,
    /// Whether a descriptor was changed for the page. A page without a
    /// mapping that was passed over was not edited.
    pub edited: bool,
}

/// Where the steps end: behind the last page, or at `from` where there is no
/// step.
pub open spec fn steps_end(steps: Seq<RegionStep>, from: usize) -> int {
    if steps.len() == 0 {
        from as int
    } else {
        steps.last().vaddr + steps.last().size.spec_bytes()
    }
}

/// The steps follow one another without a gap, the first at `from`.
pub open spec fn chained(steps: Seq<RegionStep>, from: usize) -> bool {
    &&& steps.len() > 0 ==> steps[0].vaddr == from
    &&& forall|k: int|
        0 <= k < steps.len() - 1 ==> (#[trigger] steps[k + 1]).vaddr == steps[k].vaddr
            + steps[k].size.spec_bytes()
}

/// The number of bytes that the steps cover.
pub open spec fn steps_bytes(steps: Seq<RegionStep>) -> int
    decreases steps.len(),
{
    if steps.len() == 0 {
        0
    } else {
        steps_bytes(steps.drop_last()) + steps.last().size.spec_bytes()
    }
}

/// The sizes of steps that follow one another add up to the length of what
/// they cover: with the first at `from`, they end at `from` and the sum of
/// their sizes.
pub proof fn lemma_steps_sum(steps: Seq<RegionStep>, from: usize)
    requires
        chained(steps, from),
    ensures
        steps_end(steps, from) == from + steps_bytes(steps),
    decreases steps.len(),
{
    if steps.len() > 0 {
        let init = steps.drop_last();
        assert(chained(init, from)) by {
            assert forall|k: int| 0 <= k < init.len() - 1 implies (#[trigger] init[k + 1]).vaddr
                == init[k].vaddr + init[k].size.spec_bytes() by {
                assert(init[k + 1] == steps[k + 1]);
                assert(init[k] == steps[k]);
            }
            if init.len() > 0 {
                assert(init[0] == steps[0]);
            }
        }
        lemma_steps_sum(init, from);
        if init.len() > 0 {
            let k = steps.len() - 2;
            assert(steps[k + 1].vaddr == steps[k].vaddr + steps[k].size.spec_bytes());
            assert(init.last() == steps[k]);
        }
    }
}

/// The page size for the next step of mapping a range: the largest that
/// `allow_huge` admits, that both addresses are aligned to, and that fits in
/// the `remaining` bytes.
pub open spec fn spec_pick_page_size(
    allow_huge: bool,
    vaddr: usize,
    paddr: usize,
    remaining: usize,
) -> PageSize {
    if allow_huge && vaddr % 0x4000_0000 == 0 && paddr % 0x4000_0000 == 0 && remaining
        >= 0x4000_0000 {
        PageSize::Size1G
    } else if allow_huge && vaddr % 0x20_0000 == 0 && paddr % 0x20_0000 == 0 && remaining
        >= 0x20_0000 {
        PageSize::Size2M
    } else {
        PageSize::Size4K
    }
}

/// Picks the page size for the next step of mapping a range.
pub fn pick_page_size(allow_huge: bool, vaddr: usize, paddr: usize, remaining: usize) -> (r:
    PageSize)
    ensures
        r == spec_pick_page_size(allow_huge, vaddr, paddr, remaining),
        r != PageSize::Size1M,
        remaining >= 0x1000 ==> r.spec_bytes() <= remaining,
        vaddr % 0x1000 == 0 ==> vaddr % r.spec_bytes() == 0,
{
    if allow_huge {
        if PageSize::Size1G.is_aligned(vaddr) && PageSize::Size1G.is_aligned(paddr) && remaining
            >= 0x4000_0000 {
            PageSize::Size1G
        } else if PageSize::Size2M.is_aligned(vaddr) && PageSize::Size2M.is_aligned(paddr)
            && remaining >= 0x20_0000 {
            PageSize::Size2M
        } else {
            PageSize::Size4K
        }
    } else {
        PageSize::Size4K
    }
}

/// Two addresses in one page of `size` have the same index at the level of
/// that size and at every level above.
pub proof fn lemma_same_page(base: usize, vaddr: usize, size: PageSize)
    requires
        size != PageSize::Size1M,
        base % size.spec_bytes() == 0,
        base <= vaddr < base + size.spec_bytes(),
    ensures
        spec_p4_index(vaddr) == spec_p4_index(base),
        spec_p3_index(vaddr) == spec_p3_index(base),
        size != PageSize::Size1G ==> spec_p2_index(vaddr) == spec_p2_index(base),
        size == PageSize::Size4K ==> spec_p1_index(vaddr) == spec_p1_index(base),
{
    let b: u64 = base as u64;
    let v: u64 = vaddr as u64;
    if size == PageSize::Size1G {
        assert(b % 0x4000_0000 == 0 && b <= v && v - b < 0x4000_0000 ==> (v >> 39) & 0x1ff == (b
            >> 39) & 0x1ff && (v >> 30) & 0x1ff == (b >> 30) & 0x1ff) by (bit_vector);
    } else if size == PageSize::Size2M {
        assert(b % 0x20_0000 == 0 && b <= v && v - b < 0x20_0000 ==> (v >> 39) & 0x1ff == (b
            >> 39) & 0x1ff && (v >> 30) & 0x1ff == (b >> 30) & 0x1ff && (v >> 21) & 0x1ff == (b
            >> 21) & 0x1ff) by (bit_vector);
    } else {
        assert(b % 0x1000 == 0 && b <= v && v - b < 0x1000 ==> (v >> 39) & 0x1ff == (b >> 39)
            & 0x1ff && (v >> 30) & 0x1ff == (b >> 30) & 0x1ff && (v >> 21) & 0x1ff == (b >> 21)
            & 0x1ff && (v >> 12) & 0x1ff == (b >> 12) & 0x1ff) by (bit_vector);
    }
}

/// The descriptor that maps a page maps every address of the page: where the
/// walk for the start of a page of `size` ends at a descriptor, the walk for
/// any address in the page ends at the same one.
pub proof fn lemma_mapped_within<PTE: GenericPTE>(
    frames: Map<usize, Seq<u64>>,
    root: usize,
    levels: usize,
    base: usize,
    vaddr: usize,
    entry: PTE,
    size: PageSize,
)
    requires
        size != PageSize::Size1M,
        base % size.spec_bytes() == 0,
        base <= vaddr < base + size.spec_bytes(),
        mapped_by::<PTE>(frames, root, levels, base, entry, size),
    ensures
        mapped_by::<PTE>(frames, root, levels, vaddr, entry, size),
        spec_query::<PTE>(frames, root, levels, vaddr) == translation(entry, size, vaddr),
{
    reveal(mapped_by);
    lemma_same_page(base, vaddr, size);
}

/// A descriptor in use that maps an address still maps it in every later
/// state of the frames that left the descriptors in use as they were.
pub proof fn lemma_mapped_by_preserved<PTE: GenericPTE>(
    before: Map<usize, Seq<u64>>,
    after: Map<usize, Seq<u64>>,
    root: usize,
    levels: usize,
    vaddr: usize,
    entry: PTE,
    size: PageSize,
)
    requires
        only_unused_changed::<PTE>(before, after),
        mapped_by::<PTE>(before, root, levels, vaddr, entry, size),
        entry.spec_is_present(),
    ensures
        mapped_by::<PTE>(after, root, levels, vaddr, entry, size),
{
    reveal(mapped_by);
    lemma_query_preserved::<PTE>(before, after, root, levels, vaddr);
    PTE::lemma_present(entry);
    let i3 = spec_p3_index(vaddr);
    let i2 = spec_p2_index(vaddr);
    let i1 = spec_p1_index(vaddr);
    let p3 = top_table::<PTE>(before, root, levels, vaddr).unwrap();
    assert(top_table::<PTE>(after, root, levels, vaddr) == Ok::<usize, PagingError>(p3)) by {
        crate::walk64::lemma_in_use::<PTE>();
    }
    crate::walk64::lemma_in_use::<PTE>();
    let e3 = entry_at::<PTE>(before, p3, i3).unwrap();
    if !e3.spec_is_huge() {
        let p2 = crate::walk64::spec_next_table(e3).unwrap();
        let e2 = entry_at::<PTE>(before, p2, i2).unwrap();
        if !e2.spec_is_huge() {
            let p1 = crate::walk64::spec_next_table(e2).unwrap();
            let e1 = entry_at::<PTE>(before, p1, i1).unwrap();
            assert(entry_at::<PTE>(after, p1, i1) == Some(e1));
        } else {
            assert(entry_at::<PTE>(after, p2, i2) == Some(e2));
        }
    } else {
        assert(entry_at::<PTE>(after, p3, i3) == Some(e3));
    }
}

/// What holds of one step of mapping a range that ends at `end`, for the
/// physical address `paddr` that the page was given: the address came from
/// `get_paddr`, the size is the one that [`spec_pick_page_size`] picks, the
/// page lies in the range, and a lookup of its start ends at the descriptor
/// that was written for it, as long as table descriptors can point to all
/// the frames and some permission was given.
pub open spec fn step_mapped_to<PTE: GenericPTE, F: Fn(usize) -> usize>(
    frames: Map<usize, Seq<u64>>,
    root: usize,
    levels: usize,
    get_paddr: F,
    flags: MappingFlags,
    allow_huge: bool,
    end: int,
    step: RegionStep,
    paddr: usize,
) -> bool {
    &&& step.edited
    &&& get_paddr.ensures((step.vaddr,), paddr)
    &&& step.size == spec_pick_page_size(
        allow_huge,
        step.vaddr,
        paddr,
        (end - step.vaddr) as usize,
    )
    &&& step.vaddr % step.size.spec_bytes() == 0
    &&& step.vaddr + step.size.spec_bytes() <= end
    &&& frames_fit::<PTE>(frames) && !flags.spec_is_empty() ==> mapped_by::<PTE>(
        frames,
        root,
        levels,
        step.vaddr,
        page_entry::<PTE>(paddr, step.size, flags),
        step.size,
    )
}

/// What holds of one step of mapping a range: [`step_mapped_to`], for some
/// physical address.
#[verifier::opaque]
pub open spec fn step_mapped<PTE: GenericPTE, F: Fn(usize) -> usize>(
    frames: Map<usize, Seq<u64>>,
    root: usize,
    levels: usize,
    get_paddr: F,
    flags: MappingFlags,
    allow_huge: bool,
    end: int,
    step: RegionStep,
) -> bool {
    exists|paddr: usize|
        step_mapped_to::<PTE, F>(
            frames,
            root,
            levels,
            get_paddr,
            flags,
            allow_huge,
            end,
            step,
            paddr,
        )
}

/// What holds of the page at `cur` that mapping a range stopped at with the
/// error `err`, for the frames `then` before the page was tried, the physical
/// address `paddr` that the page was given, and whether the tables for the
/// shared range were there before (`was`) and after (`now`): the address came
/// from `get_paddr`, the pages before had changed only unused descriptors,
/// and mapping the page with the size that [`spec_pick_page_size`] picks
/// failed with `err` as [`shared_map_outcome`] says.
pub open spec fn step_failed_at<PTE: GenericPTE, F: Fn(usize) -> usize>(
    before: Map<usize, Seq<u64>>,
    then: Map<usize, Seq<u64>>,
    mid: Map<usize, Seq<u64>>,
    after: Map<usize, Seq<u64>>,
    root: usize,
    levels: usize,
    range: Option<(usize, usize)>,
    get_paddr: F,
    flags: MappingFlags,
    allow_huge: bool,
    end: int,
    cur: usize,
    err: PagingError,
    paddr: usize,
    was: bool,
    now: bool,
) -> bool {
    let size = spec_pick_page_size(allow_huge, cur, paddr, (end - cur) as usize);
    &&& get_paddr.ensures((cur,), paddr)
    &&& only_unused_changed::<PTE>(before, then)
    &&& before.dom().subset_of(then.dom())
    &&& shared_map_outcome::<PTE>(
        then,
        mid,
        after,
        root,
        levels,
        (SharedTables { range, initialized: was }),
        now,
        cur,
        page_entry::<PTE>(paddr, size, flags),
        size,
        Err(err),
    )
}

/// What holds of the page at `cur` that mapping a range stopped at with the
/// error `err`: [`step_failed_at`], for some frames before the page was
/// tried, some physical address, and some state of the shared tables.
#[verifier::opaque]
pub open spec fn step_failed<PTE: GenericPTE, F: Fn(usize) -> usize>(
    before: Map<usize, Seq<u64>>,
    after: Map<usize, Seq<u64>>,
    root: usize,
    levels: usize,
    range: Option<(usize, usize)>,
    get_paddr: F,
    flags: MappingFlags,
    allow_huge: bool,
    end: int,
    cur: usize,
    err: PagingError,
) -> bool {
    exists|
        then: Map<usize, Seq<u64>>,
        mid: Map<usize, Seq<u64>>,
        paddr: usize,
        was: bool,
        now: bool,
    |
        step_failed_at::<PTE, F>(
            before,
            then,
            mid,
            after,
            root,
            levels,
            range,
            get_paddr,
            flags,
            allow_huge,
            end,
            cur,
            err,
            paddr,
            was,
            now,
        )
}

/// One page of a range was mapped, exactly: mapping the page of `step` for
/// a physical address that `get_paddr` gave for its start led from the
/// frames `then` to the frames `after`, as [`shared_map_outcome`] says of a
/// success.
#[verifier::opaque]
pub open spec fn step_done<PTE: GenericPTE, F: Fn(usize) -> usize>(
    then: Map<usize, Seq<u64>>,
    after: Map<usize, Seq<u64>>,
    root: usize,
    levels: usize,
    range: Option<(usize, usize)>,
    get_paddr: F,
    flags: MappingFlags,
    step: RegionStep,
) -> bool {
    exists|mid: Map<usize, Seq<u64>>, paddr: usize, was: bool, now: bool|
        {
            &&& get_paddr.ensures((step.vaddr,), paddr)
            &&& #[trigger] shared_map_outcome::<PTE>(
                then,
                mid,
                after,
                root,
                levels,
                (SharedTables { range, initialized: was }),
                now,
                step.vaddr,
                page_entry::<PTE>(paddr, step.size, flags),
                step.size,
                Ok(()),
            )
        }
}

/// Mapping a range stopped at the page at `cur`, exactly: in the frames
/// `then`, the page failed with `err` as [`step_failed_at`] says, and left
/// the frames `after`.
#[verifier::opaque]
pub open spec fn step_stopped<PTE: GenericPTE, F: Fn(usize) -> usize>(
    then: Map<usize, Seq<u64>>,
    after: Map<usize, Seq<u64>>,
    root: usize,
    levels: usize,
    range: Option<(usize, usize)>,
    get_paddr: F,
    flags: MappingFlags,
    allow_huge: bool,
    end: int,
    cur: usize,
    err: PagingError,
) -> bool {
    exists|mid: Map<usize, Seq<u64>>, paddr: usize, was: bool, now: bool|
        step_failed_at::<PTE, F>(
            then,
            then,
            mid,
            after,
            root,
            levels,
            range,
            get_paddr,
            flags,
            allow_huge,
            end,
            cur,
            err,
            paddr,
            was,
            now,
        )
}

/// The frames that mapping a range went through, exactly: `states` holds
/// the frames before each step and after the last. The first are `before`;
/// each step led from its frames to the next as [`step_done`] says; after a
/// success the last are `after`, and after a failure the page at which the
/// mapping stopped led from the last to `after` as [`step_stopped`] says.
/// Nothing else is written: no page behind the last step, and none at or
/// behind a page that failed.
#[verifier::opaque]
pub open spec fn region_made<PTE: GenericPTE, F: Fn(usize) -> usize>(
    states: Seq<Map<usize, Seq<u64>>>,
    before: Map<usize, Seq<u64>>,
    after: Map<usize, Seq<u64>>,
    root: usize,
    levels: usize,
    range: Option<(usize, usize)>,
    get_paddr: F,
    flags: MappingFlags,
    allow_huge: bool,
    end: int,
    cur: usize,
    steps: Seq<RegionStep>,
    r: Result<(), PagingError>,
) -> bool {
    &&& states.len() == steps.len() + 1
    &&& states[0] == before
    &&& forall|k: int|
        0 <= k < steps.len() ==> step_done::<PTE, F>(
            states[k],
            states[k + 1],
            root,
            levels,
            range,
            get_paddr,
            flags,
            #[trigger] steps[k],
        )
    &&& match r {
        Ok(_) => states.last() == after,
        Err(err) => step_stopped::<PTE, F>(
            states.last(),
            after,
            root,
            levels,
            range,
            get_paddr,
            flags,
            allow_huge,
            end,
            cur,
            err,
        ),
    }
}

/// Before the first step the frames are those that the mapping began with.
pub proof fn lemma_region_start<PTE: GenericPTE, F: Fn(usize) -> usize>(
    before: Map<usize, Seq<u64>>,
    root: usize,
    levels: usize,
    range: Option<(usize, usize)>,
    get_paddr: F,
    flags: MappingFlags,
    allow_huge: bool,
    end: int,
    cur: usize,
)
    ensures
        region_made::<PTE, F>(
            seq![before],
            before,
            before,
            root,
            levels,
            range,
            get_paddr,
            flags,
            allow_huge,
            end,
            cur,
            Seq::empty(),
            Ok(()),
        ),
{
    reveal(region_made);
}

/// One more page that was mapped adds its frames to those that the mapping
/// went through.
pub proof fn lemma_region_step<PTE: GenericPTE, F: Fn(usize) -> usize>(
    states: Seq<Map<usize, Seq<u64>>>,
    before: Map<usize, Seq<u64>>,
    then: Map<usize, Seq<u64>>,
    after: Map<usize, Seq<u64>>,
    root: usize,
    levels: usize,
    shared: SharedTables,
    now: bool,
    get_paddr: F,
    flags: MappingFlags,
    allow_huge: bool,
    end: int,
    cur: usize,
    steps: Seq<RegionStep>,
    step: RegionStep,
    paddr: usize,
)
    requires
        region_made::<PTE, F>(
            states,
            before,
            then,
            root,
            levels,
            shared.range,
            get_paddr,
            flags,
            allow_huge,
            end,
            cur,
            steps,
            Ok(()),
        ),
        get_paddr.ensures((step.vaddr,), paddr),
        exists|mid: Map<usize, Seq<u64>>| #[trigger]
            shared_map_outcome::<PTE>(
                then,
                mid,
                after,
                root,
                levels,
                shared,
                now,
                step.vaddr,
                page_entry::<PTE>(paddr, step.size, flags),
                step.size,
                Ok(()),
            ),
    ensures
        region_made::<PTE, F>(
            states.push(after),
            before,
            after,
            root,
            levels,
            shared.range,
            get_paddr,
            flags,
            allow_huge,
            end,
            (step.vaddr + step.size.spec_bytes()) as usize,
            steps.push(step),
            Ok(()),
        ),
{
    reveal(region_made);
    reveal(step_done);
    let mid = choose|mid: Map<usize, Seq<u64>>| #[trigger]
        shared_map_outcome::<PTE>(
            then,
            mid,
            after,
            root,
            levels,
            shared,
            now,
            step.vaddr,
            page_entry::<PTE>(paddr, step.size, flags),
            step.size,
            Ok(()),
        );
    assert(shared == (SharedTables { range: shared.range, initialized: shared.initialized }));
    assert(step_done::<PTE, F>(then, after, root, levels, shared.range, get_paddr, flags, step));
    let more = states.push(after);
    let all = steps.push(step);
    assert forall|k: int| 0 <= k < all.len() implies step_done::<PTE, F>(
        more[k],
        more[k + 1],
        root,
        levels,
        shared.range,
        get_paddr,
        flags,
        #[trigger] all[k],
    ) by {
        if k < steps.len() {
            assert(all[k] == steps[k]);
            assert(more[k] == states[k]);
            assert(more[k + 1] == states[k + 1]);
        } else {
            assert(more[k] == then);
        }
    }
}

/// A page that could not be mapped ends the frames that the mapping went
/// through.
pub proof fn lemma_region_stopped<PTE: GenericPTE, F: Fn(usize) -> usize>(
    states: Seq<Map<usize, Seq<u64>>>,
    before: Map<usize, Seq<u64>>,
    then: Map<usize, Seq<u64>>,
    after: Map<usize, Seq<u64>>,
    root: usize,
    levels: usize,
    shared: SharedTables,
    now: bool,
    get_paddr: F,
    flags: MappingFlags,
    allow_huge: bool,
    end: int,
    cur: usize,
    steps: Seq<RegionStep>,
    err: PagingError,
    paddr: usize,
)
    requires
        region_made::<PTE, F>(
            states,
            before,
            then,
            root,
            levels,
            shared.range,
            get_paddr,
            flags,
            allow_huge,
            end,
            cur,
            steps,
            Ok(()),
        ),
        get_paddr.ensures((cur,), paddr),
        exists|mid: Map<usize, Seq<u64>>| #[trigger]
            shared_map_outcome::<PTE>(
                then,
                mid,
                after,
                root,
                levels,
                shared,
                now,
                cur,
                page_entry::<PTE>(
                    paddr,
                    spec_pick_page_size(allow_huge, cur, paddr, (end - cur) as usize),
                    flags,
                ),
                spec_pick_page_size(allow_huge, cur, paddr, (end - cur) as usize),
                Err(err),
            ),
    ensures
        region_made::<PTE, F>(
            states,
            before,
            after,
            root,
            levels,
            shared.range,
            get_paddr,
            flags,
            allow_huge,
            end,
            cur,
            steps,
            Err(err),
        ),
{
    reveal(region_made);
    reveal(step_stopped);
    let size = spec_pick_page_size(allow_huge, cur, paddr, (end - cur) as usize);
    let mid = choose|mid: Map<usize, Seq<u64>>| #[trigger]
        shared_map_outcome::<PTE>(
            then,
            mid,
            after,
            root,
            levels,
            shared,
            now,
            cur,
            page_entry::<PTE>(paddr, size, flags),
            size,
            Err(err),
        );
    assert(shared == (SharedTables { range: shared.range, initialized: shared.initialized }));
    assert(only_unused_changed::<PTE>(then, then));
    assert(step_failed_at::<PTE, F>(
        then,
        then,
        mid,
        after,
        root,
        levels,
        shared.range,
        get_paddr,
        flags,
        allow_huge,
        end,
        cur,
        err,
        paddr,
        shared.initialized,
        now,
    ));
}

/// What mapping a range does. `steps` are the pages that were mapped, in
/// order, and `r` is the result.
///
/// A start or a size that is not a multiple of 4K is refused with
/// `NotAligned`, and nothing changes. Else the pages follow one another from
/// `vaddr`, each as [`step_mapped`] says. After a success they end at the end
/// of the range. After a failure they end at the page that could not be
/// mapped, of which [`step_failed`] holds, and the pages before it stay
/// mapped; the failure is not `NotAligned` unless the tree shares the tables
/// for a `range`. Only unused descriptors change and no frame goes away.
/// What the frames are after the call is fixed by [`region_made`], for some
/// frames between the steps.
pub open spec fn map_region_outcome<PTE: GenericPTE, F: Fn(usize) -> usize>(
    before: Map<usize, Seq<u64>>,
    after: Map<usize, Seq<u64>>,
    root: usize,
    levels: usize,
    vaddr: usize,
    get_paddr: F,
    size: usize,
    flags: MappingFlags,
    allow_huge: bool,
    range: Option<(usize, usize)>,
    steps: Seq<RegionStep>,
    r: Result<(), PagingError>,
) -> bool {
    if vaddr % 0x1000 != 0 || size % 0x1000 != 0 {
        &&& steps.len() == 0
        &&& r == Err::<(), PagingError>(PagingError::NotAligned)
        &&& after == before
    } else {
        &&& only_unused_changed::<PTE>(before, after)
        &&& before.dom().subset_of(after.dom())
        &&& chained(steps, vaddr)
        &&& forall|k: int|
            0 <= k < steps.len() ==> step_mapped::<PTE, F>(
                after,
                root,
                levels,
                get_paddr,
                flags,
                allow_huge,
                vaddr + size,
                #[trigger] steps[k],
            )
        &&& match r {
            Ok(_) => steps_end(steps, vaddr) == vaddr + size,
            Err(err) => {
                &&& steps_end(steps, vaddr) < vaddr + size
                &&& range is Some || err != PagingError::NotAligned
                &&& step_failed::<PTE, F>(
                    before,
                    after,
                    root,
                    levels,
                    range,
                    get_paddr,
                    flags,
                    allow_huge,
                    vaddr + size,
                    steps_end(steps, vaddr) as usize,
                    err,
                )
            },
        }
        &&& exists|states: Seq<Map<usize, Seq<u64>>>| #[trigger]
            region_made::<PTE, F>(
                states,
                before,
                after,
                root,
                levels,
                range,
                get_paddr,
                flags,
                allow_huge,
                vaddr + size,
                steps_end(steps, vaddr) as usize,
                steps,
                r,
            )
    }
}

/// Appending a step that starts where the steps end keeps them without a
/// gap.
pub proof fn lemma_chained_push(steps: Seq<RegionStep>, step: RegionStep, from: usize)
    requires
        chained(steps, from),
        step.vaddr == steps_end(steps, from),
    ensures
        chained(steps.push(step), from),
        steps_end(steps.push(step), from) == step.vaddr + step.size.spec_bytes(),
{
    let more = steps.push(step);
    assert forall|k: int| 0 <= k < more.len() - 1 implies (#[trigger] more[k + 1]).vaddr
        == more[k].vaddr + more[k].size.spec_bytes() by {
        if k + 1 < steps.len() {
            assert(more[k + 1] == steps[k + 1]);
            assert(more[k] == steps[k]);
        } else {
            assert(more[k] == steps.last());
        }
    }
    if steps.len() > 0 {
        assert(more[0] == steps[0]);
    }
}

/// The steps of mapping a range that were taken stay as they were in every
/// later state of the frames that left the descriptors in use as they were.
pub proof fn lemma_steps_kept<PTE: GenericPTE, F: Fn(usize) -> usize>(
    before: Map<usize, Seq<u64>>,
    after: Map<usize, Seq<u64>>,
    root: usize,
    levels: usize,
    get_paddr: F,
    flags: MappingFlags,
    allow_huge: bool,
    end: int,
    steps: Seq<RegionStep>,
)
    requires
        only_unused_changed::<PTE>(before, after),
        before.dom().subset_of(after.dom()),
        forall|k: int|
            0 <= k < steps.len() ==> step_mapped::<PTE, F>(
                before,
                root,
                levels,
                get_paddr,
                flags,
                allow_huge,
                end,
                #[trigger] steps[k],
            ),
    ensures
        forall|k: int|
            0 <= k < steps.len() ==> step_mapped::<PTE, F>(
                after,
                root,
                levels,
                get_paddr,
                flags,
                allow_huge,
                end,
                #[trigger] steps[k],
            ),
{
    reveal(step_mapped);
    assert forall|k: int| 0 <= k < steps.len() implies step_mapped::<PTE, F>(
        after,
        root,
        levels,
        get_paddr,
        flags,
        allow_huge,
        end,
        #[trigger] steps[k],
    ) by {
        let s = steps[k];
        assert(step_mapped::<PTE, F>(
            before,
            root,
            levels,
            get_paddr,
            flags,
            allow_huge,
            end,
            s,
        ));
        let p = choose|p: usize|
            step_mapped_to::<PTE, F>(
                before,
                root,
                levels,
                get_paddr,
                flags,
                allow_huge,
                end,
                s,
                p,
            );
        if frames_fit::<PTE>(after) && !flags.spec_is_empty() {
            lemma_fit_subset::<PTE>(before, after);
            let e = page_entry::<PTE>(p, s.size, flags);
            PTE::lemma_new_page(s.size.spec_align_down(p), flags, s.size.spec_is_huge());
            lemma_mapped_by_preserved::<PTE>(before, after, root, levels, s.vaddr, e, s.size);
        }
        assert(step_mapped_to::<PTE, F>(
            after,
            root,
            levels,
            get_paddr,
            flags,
            allow_huge,
            end,
            s,
            p,
        ));
    }
}

/// A page that was just mapped is a step of mapping the range.
pub proof fn lemma_step_taken<PTE: GenericPTE, F: Fn(usize) -> usize>(
    frames: Map<usize, Seq<u64>>,
    root: usize,
    levels: usize,
    get_paddr: F,
    flags: MappingFlags,
    allow_huge: bool,
    end: int,
    step: RegionStep,
    paddr: usize,
    remaining: usize,
    mapped: Result<(), PagingError>,
)
    requires
        mapped is Ok,
        step.edited,
        get_paddr.ensures((step.vaddr,), paddr),
        step.vaddr % 0x1000 == 0,
        remaining >= 0x1000,
        step.vaddr + remaining == end,
        step.size == spec_pick_page_size(allow_huge, step.vaddr, paddr, remaining),
        frames_fit::<PTE>(frames) && (step.size == PageSize::Size4K || page_entry::<PTE>(
            paddr,
            step.size,
            flags,
        ).spec_is_huge()) ==> mapped_by::<PTE>(
            frames,
            root,
            levels,
            step.vaddr,
            page_entry::<PTE>(paddr, step.size, flags),
            step.size,
        ),
    ensures
        step_mapped::<PTE, F>(frames, root, levels, get_paddr, flags, allow_huge, end, step),
{
    reveal(step_mapped);
    if !flags.spec_is_empty() {
        PTE::lemma_new_page(step.size.spec_align_down(paddr), flags, step.size.spec_is_huge());
    }
    assert(step_mapped_to::<PTE, F>(
        frames,
        root,
        levels,
        get_paddr,
        flags,
        allow_huge,
        end,
        step,
        paddr,
    ));
}

/// What a range edit needs to know of mapping one page in a tree that may
/// share tables: only unused descriptors change, no frame goes away, and a
/// success leaves the page mapped by its descriptor.
pub open spec fn shared_map_effect<PTE: GenericPTE>(
    before: Map<usize, Seq<u64>>,
    after: Map<usize, Seq<u64>>,
    root: usize,
    levels: usize,
    vaddr: usize,
    page: PTE,
    size: PageSize,
    r: Result<(), PagingError>,
) -> bool {
    &&& only_unused_changed::<PTE>(before, after)
    &&& before.dom().subset_of(after.dom())
    &&& r is Ok && frames_fit::<PTE>(after) && (size == PageSize::Size4K || page.spec_is_huge())
        ==> mapped_by::<PTE>(after, root, levels, vaddr, page, size)
}

/// What [`shared_map_outcome`] says in full holds in short as
/// [`shared_map_effect`], and a tree that shares nothing never fails with
/// `NotAligned`.
pub proof fn lemma_shared_map_effect<PTE: GenericPTE>(
    before: Map<usize, Seq<u64>>,
    mid: Map<usize, Seq<u64>>,
    after: Map<usize, Seq<u64>>,
    root: usize,
    levels: usize,
    shared: SharedTables,
    initialized: bool,
    vaddr: usize,
    page: PTE,
    size: PageSize,
    r: Result<(), PagingError>,
)
    requires
        shared_map_outcome::<PTE>(
            before,
            mid,
            after,
            root,
            levels,
            shared,
            initialized,
            vaddr,
            page,
            size,
            r,
        ),
    ensures
        shared_map_effect::<PTE>(before, after, root, levels, vaddr, page, size, r),
        shared.range is None ==> r != Err::<(), PagingError>(PagingError::NotAligned)
            && initialized == shared.initialized,
{
    if shared.needs_tables(vaddr) {
        let made = choose|made: Result<(), PagingError>|
            {
                &&& #[trigger] init_outcome::<PTE>(
                    before,
                    mid,
                    root,
                    levels,
                    shared.range.unwrap(),
                    made,
                )
                &&& initialized == made is Ok
                &&& match made {
                    Ok(_) => crate::walk64::map_outcome::<PTE>(
                        mid,
                        after,
                        root,
                        levels,
                        vaddr,
                        page,
                        size,
                        r,
                    ),
                    Err(err) => r == Err::<(), PagingError>(err) && after == mid,
                }
            };
        assert(only_unused_changed::<PTE>(before, mid));
        match made {
            Ok(_) => {
                lemma_map_effect::<PTE>(mid, after, root, levels, vaddr, page, size, r);
                lemma_unused_changed_twice::<PTE>(before, mid, after);
            },
            Err(_) => {},
        }
    } else {
        lemma_map_effect::<PTE>(before, after, root, levels, vaddr, page, size, r);
    }
}

/// What mapping a range does to the tables that a tree owns: `kept` are the
/// owned tables before and `now` after.
///
/// A well formed tree that shares no tables stays well formed, and owns what
/// it owned and the frames that were made, as long as table descriptors can
/// point to all the frames, some permission is given, and no slot of the
/// root table that serves the range is on loan.
pub open spec fn region_owned<PTE: GenericPTE>(
    before: Map<usize, Seq<u64>>,
    after: Map<usize, Seq<u64>>,
    root: usize,
    levels: usize,
    borrowed: Set<usize>,
    kept: Map<usize, TableNode>,
    now: Map<usize, TableNode>,
    vaddr: usize,
    size: usize,
    flags: MappingFlags,
) -> bool {
    tree_wf::<PTE>(before, root, levels, borrowed, kept) && frames_fit::<PTE>(after)
        && !flags.spec_is_empty() && (forall|v: usize|
        vaddr <= v < vaddr + size ==> !borrowed.contains(#[trigger] spec_root_index(v, levels)))
        ==> {
        &&& tree_wf::<PTE>(after, root, levels, borrowed, now)
        &&& now.dom() =~= kept.dom().union(after.dom().difference(before.dom()))
    }
}

/// The tables that a tree owns after one more page of a range was mapped.
pub proof fn lemma_region_owned_step<PTE: GenericPTE>(
    start: Map<usize, Seq<u64>>,
    before: Map<usize, Seq<u64>>,
    after: Map<usize, Seq<u64>>,
    root: usize,
    levels: usize,
    borrowed: Set<usize>,
    kept: Map<usize, TableNode>,
    then: Map<usize, TableNode>,
    now: Map<usize, TableNode>,
    vaddr: usize,
    size: usize,
    flags: MappingFlags,
    cur: usize,
    paddr: usize,
    page_size: PageSize,
    r: Result<(), PagingError>,
)
    requires
        vaddr <= cur < vaddr + size,
        start.dom().subset_of(before.dom()),
        before.dom().subset_of(after.dom()),
        region_owned::<PTE>(
            start,
            before,
            root,
            levels,
            borrowed,
            kept,
            then,
            vaddr,
            size,
            flags,
        ),
        map_owned::<PTE>(
            before,
            after,
            root,
            levels,
            borrowed,
            then,
            now,
            cur,
            page_entry::<PTE>(paddr, page_size, flags),
            page_size,
            r,
        ),
    ensures
        region_owned::<PTE>(start, after, root, levels, borrowed, kept, now, vaddr, size, flags),
{
    if tree_wf::<PTE>(start, root, levels, borrowed, kept) && frames_fit::<PTE>(after)
        && !flags.spec_is_empty() && (forall|v: usize|
        vaddr <= v < vaddr + size ==> !borrowed.contains(#[trigger] spec_root_index(v, levels))) {
        lemma_fit_subset::<PTE>(before, after);
        assert(!borrowed.contains(spec_root_index(cur, levels)));
        PTE::lemma_new_page(
            page_size.spec_align_down(paddr),
            flags,
            page_size.spec_is_huge(),
        );
        assert forall|f: usize| then.contains_key(f) implies before.contains_key(f) by {
            assert(node_ok::<PTE>(before, root, levels, borrowed, then, f));
        }
        assert(now.dom() =~= kept.dom().union(after.dom().difference(start.dom())));
    }
}

/// A page that could not be mapped is one that mapping a range stops at.
pub proof fn lemma_step_failed<PTE: GenericPTE, F: Fn(usize) -> usize>(
    before: Map<usize, Seq<u64>>,
    then: Map<usize, Seq<u64>>,
    after: Map<usize, Seq<u64>>,
    root: usize,
    levels: usize,
    shared: SharedTables,
    now: bool,
    get_paddr: F,
    flags: MappingFlags,
    allow_huge: bool,
    end: int,
    cur: usize,
    err: PagingError,
    paddr: usize,
)
    requires
        get_paddr.ensures((cur,), paddr),
        only_unused_changed::<PTE>(before, then),
        before.dom().subset_of(then.dom()),
        exists|mid: Map<usize, Seq<u64>>| #[trigger]
            shared_map_outcome::<PTE>(
                then,
                mid,
                after,
                root,
                levels,
                shared,
                now,
                cur,
                page_entry::<PTE>(
                    paddr,
                    spec_pick_page_size(allow_huge, cur, paddr, (end - cur) as usize),
                    flags,
                ),
                spec_pick_page_size(allow_huge, cur, paddr, (end - cur) as usize),
                Err(err),
            ),
    ensures
        step_failed::<PTE, F>(
            before,
            after,
            root,
            levels,
            shared.range,
            get_paddr,
            flags,
            allow_huge,
            end,
            cur,
            err,
        ),
{
    reveal(step_failed);
    let size = spec_pick_page_size(allow_huge, cur, paddr, (end - cur) as usize);
    let mid = choose|mid: Map<usize, Seq<u64>>| #[trigger]
        shared_map_outcome::<PTE>(
            then,
            mid,
            after,
            root,
            levels,
            shared,
            now,
            cur,
            page_entry::<PTE>(paddr, size, flags),
            size,
            Err(err),
        );
    assert(shared == (SharedTables { range: shared.range, initialized: shared.initialized }));
    assert(step_failed_at::<PTE, F>(
        before,
        then,
        mid,
        after,
        root,
        levels,
        shared.range,
        get_paddr,
        flags,
        allow_huge,
        end,
        cur,
        err,
        paddr,
        shared.initialized,
        now,
    ));
}

/// Maps one page of a range.
fn map_step<PTE: GenericPTE, H: PagingHandler>(
    handler: &mut H,
    root: usize,
    levels: usize,
    shared: &mut SharedTables,
    vaddr: usize,
    target: usize,
    page_size: PageSize,
    flags: MappingFlags,
    Ghost(borrowed): Ghost<Set<usize>>,
    nodes: &mut Ghost<Map<usize, TableNode>>,
) -> (r: Result<(), PagingError>)
    requires
        old(handler).inv(),
        levels == 3 || levels == 4,
        page_size != PageSize::Size1M,
    ensures
        final(handler).inv(),
        final(shared).range == old(shared).range,
        old(shared).range is None ==> map_owned::<PTE>(
            old(handler).frames(),
            final(handler).frames(),
            root,
            levels,
            borrowed,
            old(nodes)@,
            final(nodes)@,
            vaddr,
            page_entry::<PTE>(target, page_size, flags),
            page_size,
            r,
        ),
        shared_map_effect::<PTE>(
            old(handler).frames(),
            final(handler).frames(),
            root,
            levels,
            vaddr,
            page_entry::<PTE>(target, page_size, flags),
            page_size,
            r,
        ),
        old(shared).range is None ==> r != Err::<(), PagingError>(PagingError::NotAligned),
        exists|mid: Map<usize, Seq<u64>>| #[trigger]
            shared_map_outcome::<PTE>(
                old(handler).frames(),
                mid,
                final(handler).frames(),
                root,
                levels,
                *old(shared),
                final(shared).initialized,
                vaddr,
                page_entry::<PTE>(target, page_size, flags),
                page_size,
                r,
            ),
{
    let ghost before = handler.frames();
    let r = shared_map_page::<PTE, H>(
        handler,
        root,
        levels,
        shared,
        vaddr,
        target,
        page_size,
        flags,
        Ghost(borrowed),
        nodes,
    );
    proof {
        let page = page_entry::<PTE>(target, page_size, flags);
        let mid = choose|mid: Map<usize, Seq<u64>>| #[trigger]
            shared_map_outcome::<PTE>(
                before,
                mid,
                handler.frames(),
                root,
                levels,
                *old(shared),
                shared.initialized,
                vaddr,
                page,
                page_size,
                r,
            );
        lemma_shared_map_effect::<PTE>(
            before,
            mid,
            handler.frames(),
            root,
            levels,
            *old(shared),
            shared.initialized,
            vaddr,
            page,
            page_size,
            r,
        );
    }
    r
}

/// Maps a contiguous virtual memory region to a contiguous physical memory
/// region with the given mapping `flags`, and returns the pages that were
/// mapped with the result.
#[verifier::rlimit(50)]
pub fn map_region_pages<PTE: GenericPTE, H: PagingHandler, F: Fn(usize) -> usize>(
    handler: &mut H,
    root: usize,
    levels: usize,
    shared: &mut SharedTables,
    vaddr: usize,
    get_paddr: F,
    size: usize,
    flags: MappingFlags,
    allow_huge: bool,
    Ghost(borrowed): Ghost<Set<usize>>,
    nodes: &mut Ghost<Map<usize, TableNode>>,
) -> (r: (Vec<RegionStep>, Result<(), PagingError>))
    requires
        old(handler).inv(),
        levels == 3 || levels == 4,
        vaddr + size <= usize::MAX,
        forall|v: usize| get_paddr.requires((v,)),
    ensures
        final(handler).inv(),
        final(shared).range == old(shared).range,
        old(shared).range is None ==> region_owned::<PTE>(
            old(handler).frames(),
            final(handler).frames(),
            root,
            levels,
            borrowed,
            old(nodes)@,
            final(nodes)@,
            vaddr,
            size,
            flags,
        ),
        map_region_outcome::<PTE, F>(
            old(handler).frames(),
            final(handler).frames(),
            root,
            levels,
            vaddr,
            get_paddr,
            size,
            flags,
            allow_huge,
            old(shared).range,
            r.0@,
            r.1,
        ),
{
    let mut steps: Vec<RegionStep> = Vec::new();
    if !PageSize::Size4K.is_aligned(vaddr) || !PageSize::Size4K.is_aligned(size) {
        return (steps, Err(PagingError::NotAligned));
    }
    let ghost f0 = handler.frames();
    let ghost n0 = nodes@;
    let ghost end = vaddr + size;
    let mut cur: usize = vaddr;
    let mut remaining: usize = size;
    let ghost mut states: Seq<Map<usize, Seq<u64>>> = seq![f0];
    proof {
        assert(only_unused_changed::<PTE>(f0, f0));
        assert(n0.dom() =~= n0.dom().union(f0.dom().difference(f0.dom())));
        lemma_region_start::<PTE, F>(
            f0,
            root,
            levels,
            shared.range,
            get_paddr,
            flags,
            allow_huge,
            end,
            cur,
        );
    }
    while remaining > 0
        invariant
            handler.inv(),
            levels == 3 || levels == 4,
            region_made::<PTE, F>(
                states,
                f0,
                handler.frames(),
                root,
                levels,
                shared.range,
                get_paddr,
                flags,
                allow_huge,
                end,
                cur,
                steps@,
                Ok(()),
            ),
            f0 == old(handler).frames(),
            n0 == old(nodes)@,
            shared.range == old(shared).range,
            shared.range is None ==> region_owned::<PTE>(
                f0,
                handler.frames(),
                root,
                levels,
                borrowed,
                n0,
                nodes@,
                vaddr,
                size,
                flags,
            ),
            end == vaddr + size,
            end <= usize::MAX,
            cur + remaining == end,
            vaddr <= cur,
            vaddr % 0x1000 == 0,
            size % 0x1000 == 0,
            cur % 0x1000 == 0,
            remaining % 0x1000 == 0,
            forall|v: usize| get_paddr.requires((v,)),
            only_unused_changed::<PTE>(f0, handler.frames()),
            f0.dom().subset_of(handler.frames().dom()),
            chained(steps@, vaddr),
            steps_end(steps@, vaddr) == cur,
            forall|k: int|
                0 <= k < steps.len() ==> step_mapped::<PTE, F>(
                    handler.frames(),
                    root,
                    levels,
                    get_paddr,
                    flags,
                    allow_huge,
                    end,
                    #[trigger] steps@[k],
                ),
        decreases remaining,
    {
        let paddr: usize = get_paddr(cur);
        let page_size: PageSize = pick_page_size(allow_huge, cur, paddr, remaining);
        let bytes: usize = usize::from(page_size);
        let ghost f1 = handler.frames();
        let ghost n1 = nodes@;
        let ghost shared_then = *shared;
        let mapped = map_step::<PTE, H>(
            handler,
            root,
            levels,
            shared,
            cur,
            paddr,
            page_size,
            flags,
            Ghost(borrowed),
            nodes,
        );
        proof {
            let f2 = handler.frames();
            lemma_unused_changed_twice::<PTE>(f0, f1, f2);
            if shared.range is None {
                lemma_region_owned_step::<PTE>(
                    f0,
                    f1,
                    f2,
                    root,
                    levels,
                    borrowed,
                    n0,
                    n1,
                    nodes@,
                    vaddr,
                    size,
                    flags,
                    cur,
                    paddr,
                    page_size,
                    mapped,
                );
            }
            lemma_steps_kept::<PTE, F>(
                f1,
                f2,
                root,
                levels,
                get_paddr,
                flags,
                allow_huge,
                end,
                steps@,
            );
        }
        match mapped {
            Ok(_) => {},
            Err(err) => {
                proof {
                    lemma_step_failed::<PTE, F>(
                        f0,
                        f1,
                        handler.frames(),
                        root,
                        levels,
                        shared_then,
                        shared.initialized,
                        get_paddr,
                        flags,
                        allow_huge,
                        end,
                        cur,
                        err,
                        paddr,
                    );
                    lemma_region_stopped::<PTE, F>(
                        states,
                        f0,
                        f1,
                        handler.frames(),
                        root,
                        levels,
                        shared_then,
                        shared.initialized,
                        get_paddr,
                        flags,
                        allow_huge,
                        end,
                        cur,
                        steps@,
                        err,
                        paddr,
                    );
                    assert(region_made::<PTE, F>(
                        states,
                        f0,
                        handler.frames(),
                        root,
                        levels,
                        shared.range,
                        get_paddr,
                        flags,
                        allow_huge,
                        vaddr + size,
                        steps_end(steps@, vaddr) as usize,
                        steps@,
                        Err(err),
                    ));
                }
                return (steps, Err(err));
            },
        }
        let ghost before_push = steps@;
        steps.push(RegionStep { vaddr: cur, size: page_size, edited: true });
        proof {
            let f2 = handler.frames();
            let s = RegionStep { vaddr: cur, size: page_size, edited: true };
            match mapped {
                Ok(unit) => {
                    assert(unit == ());
                },
                Err(_) => {},
            }
            assert(mapped == Ok::<(), PagingError>(()));
            let mid = choose|mid: Map<usize, Seq<u64>>| #[trigger]
                shared_map_outcome::<PTE>(
                    f1,
                    mid,
                    f2,
                    root,
                    levels,
                    shared_then,
                    shared.initialized,
                    cur,
                    page_entry::<PTE>(paddr, page_size, flags),
                    page_size,
                    mapped,
                );
            assert(shared_map_outcome::<PTE>(
                f1,
                mid,
                f2,
                root,
                levels,
                shared_then,
                shared.initialized,
                s.vaddr,
                page_entry::<PTE>(paddr, s.size, flags),
                s.size,
                Ok(()),
            ));
            lemma_region_step::<PTE, F>(
                states,
                f0,
                f1,
                f2,
                root,
                levels,
                shared_then,
                shared.initialized,
                get_paddr,
                flags,
                allow_huge,
                end,
                cur,
                before_push,
                s,
                paddr,
            );
            states = states.push(f2);
            lemma_step_taken::<PTE, F>(
                f2,
                root,
                levels,
                get_paddr,
                flags,
                allow_huge,
                end,
                s,
                paddr,
                remaining,
                mapped,
            );
            lemma_chained_push(before_push, s, vaddr);
            assert forall|k: int| 0 <= k < steps.len() implies step_mapped::<PTE, F>(
                f2,
                root,
                levels,
                get_paddr,
                flags,
                allow_huge,
                end,
                #[trigger] steps@[k],
            ) by {
                if k < before_push.len() {
                    assert(steps@[k] == before_push[k]);
                }
            }
        }
        cur = cur + bytes;
        remaining = remaining - bytes;
    }
    assert(region_made::<PTE, F>(
        states,
        f0,
        handler.frames(),
        root,
        levels,
        shared.range,
        get_paddr,
        flags,
        allow_huge,
        vaddr + size,
        steps_end(steps@, vaddr) as usize,
        steps@,
        Ok(()),
    ));
    (steps, Ok(()))
}

/// Where table descriptors can point to all the frames of a state, they can
/// to all the frames of a state that holds no others.
pub proof fn lemma_fit_subset<PTE: GenericPTE>(
    fewer: Map<usize, Seq<u64>>,
    more: Map<usize, Seq<u64>>,
)
    requires
        fewer.dom().subset_of(more.dom()),
        frames_fit::<PTE>(more),
    ensures
        frames_fit::<PTE>(fewer),
{
    assert forall|p: usize| #[trigger] fewer.contains_key(p) implies PTE::spec_holds_table(p) by {
        assert(more.contains_key(p));
    }
}

/// Unmaps one page of a range.
fn unmap_step<PTE: GenericPTE, H: PagingHandler>(
    handler: &mut H,
    root: usize,
    levels: usize,
    vaddr: usize,
) -> (r: Result<(usize, MappingFlags, PageSize), PagingError>)
    requires
        old(handler).inv(),
        levels == 3 || levels == 4,
    ensures
        final(handler).inv(),
        final(handler).frames() == spec_unmap_frames::<PTE>(
            old(handler).frames(),
            root,
            levels,
            vaddr,
        ),
        r == spec_unmap_result::<PTE>(old(handler).frames(), root, levels, vaddr),
{
    reveal(spec_unmap_frames);
    reveal(spec_unmap_result);
    unmap_page::<PTE, H>(handler, root, levels, vaddr)
}

/// Sets the permissions of one page of a range.
fn protect_step<PTE: GenericPTE, H: PagingHandler>(
    handler: &mut H,
    root: usize,
    levels: usize,
    vaddr: usize,
    flags: MappingFlags,
) -> (r: Result<PageSize, PagingError>)
    requires
        old(handler).inv(),
        levels == 3 || levels == 4,
    ensures
        final(handler).inv(),
        final(handler).frames() == spec_protect_frames::<PTE>(
            old(handler).frames(),
            root,
            levels,
            vaddr,
            flags,
        ),
        r == spec_protect_result::<PTE>(old(handler).frames(), root, levels, vaddr),
        r is Err ==> final(handler).frames() == old(handler).frames(),
{
    reveal(spec_protect_frames);
    reveal(spec_protect_result);
    protect_page::<PTE, H>(handler, root, levels, vaddr, flags)
}

/// The end of an edit of a range: the frames as they are left, the pages
/// that were edited, in order, and the result.
pub struct RegionOutcome {
    /// The frames as they are left.
    pub frames: Map<usize, Seq<u64>>,
    /// The pages that were edited, in order.
    pub steps: Seq<RegionStep>,
    /// The result of the edit.
    pub result: Result<(), PagingError>,
}

/// What unmapping the range of `size` bytes at `vaddr` does, page by page.
///
/// The page at `vaddr` is unmapped first. Where that fails, the edit ends
/// with the error. Where the page does not start at `vaddr` or is longer
/// than the range, the edit ends with `NotAligned`, after the page was
/// unmapped. Else the edit goes on behind the page.
#[verifier::opaque]
pub open spec fn spec_unmap_region<PTE: GenericPTE>(
    frames: Map<usize, Seq<u64>>,
    root: usize,
    levels: usize,
    vaddr: usize,
    size: usize,
) -> RegionOutcome
    decreases size,
{
    if size == 0 {
        RegionOutcome { frames, steps: Seq::empty(), result: Ok(()) }
    } else {
        let unmapped = spec_unmap_frames::<PTE>(frames, root, levels, vaddr);
        match spec_unmap_result::<PTE>(frames, root, levels, vaddr) {
            Ok((_, _, page_size)) => {
                let step = RegionStep { vaddr, size: page_size, edited: true };
                if vaddr % page_size.spec_bytes() != 0 || page_size.spec_bytes() > size {
                    RegionOutcome {
                        frames: unmapped,
                        steps: seq![step],
                        result: Err(PagingError::NotAligned),
                    }
                } else {
                    let rest = spec_unmap_region::<PTE>(
                        unmapped,
                        root,
                        levels,
                        (vaddr + page_size.spec_bytes()) as usize,
                        (size - page_size.spec_bytes()) as usize,
                    );
                    RegionOutcome {
                        frames: rest.frames,
                        steps: seq![step] + rest.steps,
                        result: rest.result,
                    }
                }
            },
            Err(err) => RegionOutcome { frames: unmapped, steps: Seq::empty(), result: Err(err) },
        }
    }
}

/// A step put behind the steps that were taken stands before the steps that
/// follow.
pub proof fn lemma_step_joined(taken: Seq<RegionStep>, step: RegionStep, rest: Seq<RegionStep>)
    ensures
        taken.push(step) + rest == taken + (seq![step] + rest),
        taken + Seq::<RegionStep>::empty() == taken,
        taken.push(step) == taken + seq![step],
{
    assert(taken.push(step) + rest =~= taken + (seq![step] + rest));
    assert(taken + Seq::<RegionStep>::empty() =~= taken);
    assert(taken.push(step) =~= taken + seq![step]);
}

/// The first step of unmapping a range, case by case.
pub proof fn lemma_unmap_region_step<PTE: GenericPTE>(
    frames: Map<usize, Seq<u64>>,
    root: usize,
    levels: usize,
    vaddr: usize,
    size: usize,
)
    ensures
        size == 0 ==> spec_unmap_region::<PTE>(frames, root, levels, vaddr, size)
            == (RegionOutcome { frames, steps: Seq::empty(), result: Ok(()) }),
        size > 0 ==> match spec_unmap_result::<PTE>(frames, root, levels, vaddr) {
            Ok((_, _, page_size)) => if vaddr % page_size.spec_bytes() != 0
                || page_size.spec_bytes() > size {
                spec_unmap_region::<PTE>(frames, root, levels, vaddr, size) == (RegionOutcome {
                    frames: spec_unmap_frames::<PTE>(frames, root, levels, vaddr),
                    steps: seq![RegionStep { vaddr, size: page_size, edited: true }],
                    result: Err(PagingError::NotAligned),
                })
            } else {
                unmap_region_goes_on::<PTE>(frames, root, levels, vaddr, size, page_size)
            },
            Err(err) => spec_unmap_region::<PTE>(frames, root, levels, vaddr, size)
                == (RegionOutcome {
                frames: spec_unmap_frames::<PTE>(frames, root, levels, vaddr),
                steps: Seq::empty(),
                result: Err(err),
            }),
        },
{
    reveal_with_fuel(spec_unmap_region, 2);
}

/// Unmapping a range goes on behind the page of `page_size` at `vaddr`: the
/// outcome is that of unmapping what is left, with the page put first.
pub open spec fn unmap_region_goes_on<PTE: GenericPTE>(
    frames: Map<usize, Seq<u64>>,
    root: usize,
    levels: usize,
    vaddr: usize,
    size: usize,
    page_size: PageSize,
) -> bool {
    let all = spec_unmap_region::<PTE>(frames, root, levels, vaddr, size);
    let rest = spec_unmap_region::<PTE>(
        spec_unmap_frames::<PTE>(frames, root, levels, vaddr),
        root,
        levels,
        (vaddr + page_size.spec_bytes()) as usize,
        (size - page_size.spec_bytes()) as usize,
    );
    &&& all.frames == rest.frames
    &&& all.steps == seq![RegionStep { vaddr, size: page_size, edited: true }] + rest.steps
    &&& all.result == rest.result
}

/// The first step of setting the permissions of a range, case by case.
pub proof fn lemma_protect_region_step<PTE: GenericPTE>(
    frames: Map<usize, Seq<u64>>,
    root: usize,
    levels: usize,
    vaddr: usize,
    size: usize,
    flags: MappingFlags,
)
    ensures
        size == 0 ==> spec_protect_region::<PTE>(frames, root, levels, vaddr, size, flags)
            == (RegionOutcome { frames, steps: Seq::empty(), result: Ok(()) }),
        size > 0 ==> match spec_protect_result::<PTE>(frames, root, levels, vaddr) {
            Ok(page_size) => if vaddr % page_size.spec_bytes() != 0 || page_size.spec_bytes()
                > size {
                spec_protect_region::<PTE>(frames, root, levels, vaddr, size, flags)
                    == (RegionOutcome {
                    frames: spec_protect_frames::<PTE>(frames, root, levels, vaddr, flags),
                    steps: seq![RegionStep { vaddr, size: page_size, edited: true }],
                    result: Err(PagingError::NotAligned),
                })
            } else {
                protect_region_goes_on::<PTE>(
                    frames,
                    spec_protect_frames::<PTE>(frames, root, levels, vaddr, flags),
                    root,
                    levels,
                    vaddr,
                    size,
                    flags,
                    RegionStep { vaddr, size: page_size, edited: true },
                )
            },
            Err(err) => if err == PagingError::NotMapped && size >= 0x1000 {
                protect_region_goes_on::<PTE>(
                    frames,
                    frames,
                    root,
                    levels,
                    vaddr,
                    size,
                    flags,
                    RegionStep { vaddr, size: PageSize::Size4K, edited: false },
                )
            } else {
                spec_protect_region::<PTE>(frames, root, levels, vaddr, size, flags)
                    == (RegionOutcome { frames, steps: Seq::empty(), result: Err(err) })
            },
        },
{
    reveal_with_fuel(spec_protect_region, 2);
}

/// Setting the permissions of a range goes on behind the page of `step`,
/// with the frames `changed`: the outcome is that of what is left, with the
/// step put first.
pub open spec fn protect_region_goes_on<PTE: GenericPTE>(
    frames: Map<usize, Seq<u64>>,
    changed: Map<usize, Seq<u64>>,
    root: usize,
    levels: usize,
    vaddr: usize,
    size: usize,
    flags: MappingFlags,
    step: RegionStep,
) -> bool {
    let all = spec_protect_region::<PTE>(frames, root, levels, vaddr, size, flags);
    let rest = spec_protect_region::<PTE>(
        changed,
        root,
        levels,
        (vaddr + step.size.spec_bytes()) as usize,
        (size - step.size.spec_bytes()) as usize,
        flags,
    );
    &&& all.frames == rest.frames
    &&& all.steps == seq![step] + rest.steps
    &&& all.result == rest.result
}

/// What unmapping a range does. A start or a size that is not a multiple of
/// 4K is refused with `NotAligned`, and nothing changes. Else the range is
/// unmapped page by page as [`spec_unmap_region`] says.
pub open spec fn unmap_region_outcome<PTE: GenericPTE>(
    before: Map<usize, Seq<u64>>,
    root: usize,
    levels: usize,
    vaddr: usize,
    size: usize,
) -> RegionOutcome {
    if vaddr % 0x1000 != 0 || size % 0x1000 != 0 {
        RegionOutcome {
            frames: before,
            steps: Seq::empty(),
            result: Err(PagingError::NotAligned),
        }
    } else {
        spec_unmap_region::<PTE>(before, root, levels, vaddr, size)
    }
}

/// Unmaps a contiguous virtual memory region, and returns the pages that
/// were unmapped with the result.
#[verifier::rlimit(50)]
pub fn unmap_region_pages<PTE: GenericPTE, H: PagingHandler>(
    handler: &mut H,
    root: usize,
    levels: usize,
    vaddr: usize,
    size: usize,
) -> (r: (Vec<RegionStep>, Result<(), PagingError>))
    requires
        old(handler).inv(),
        levels == 3 || levels == 4,
        vaddr + size <= usize::MAX,
    ensures
        final(handler).inv(),
        unmap_region_outcome::<PTE>(old(handler).frames(), root, levels, vaddr, size)
            == (RegionOutcome { frames: final(handler).frames(), steps: r.0@, result: r.1 }),
{
    let mut steps: Vec<RegionStep> = Vec::new();
    if !PageSize::Size4K.is_aligned(vaddr) || !PageSize::Size4K.is_aligned(size) {
        return (steps, Err(PagingError::NotAligned));
    }
    let ghost total = spec_unmap_region::<PTE>(handler.frames(), root, levels, vaddr, size);
    let mut cur: usize = vaddr;
    let mut remaining: usize = size;
    proof {
        lemma_step_joined(steps@, RegionStep { vaddr, size: PageSize::Size4K, edited: false }, total.steps);
        assert(steps@ + total.steps =~= total.steps);
    }
    while remaining > 0
        invariant
            handler.inv(),
            levels == 3 || levels == 4,
            vaddr % 0x1000 == 0,
            size % 0x1000 == 0,
            total == spec_unmap_region::<PTE>(old(handler).frames(), root, levels, vaddr, size),
            cur + remaining <= usize::MAX,
            total.frames == spec_unmap_region::<PTE>(
                handler.frames(),
                root,
                levels,
                cur,
                remaining,
            ).frames,
            total.steps == steps@ + spec_unmap_region::<PTE>(
                handler.frames(),
                root,
                levels,
                cur,
                remaining,
            ).steps,
            total.result == spec_unmap_region::<PTE>(
                handler.frames(),
                root,
                levels,
                cur,
                remaining,
            ).result,
        decreases remaining,
    {
        let ghost taken = steps@;
        proof {
            lemma_unmap_region_step::<PTE>(handler.frames(), root, levels, cur, remaining);
        }
        let page_size: PageSize = match unmap_step::<PTE, H>(handler, root, levels, cur) {
            Ok((_, _, page_size)) => page_size,
            Err(err) => {
                proof {
                    lemma_step_joined(taken, RegionStep { vaddr, size: PageSize::Size4K, edited: false }, taken);
                }
                return (steps, Err(err));
            },
        };
        let bytes: usize = usize::from(page_size);
        let ghost step = RegionStep { vaddr: cur, size: page_size, edited: true };
        steps.push(RegionStep { vaddr: cur, size: page_size, edited: true });
        if !page_size.is_aligned(cur) || bytes > remaining {
            proof {
                lemma_step_joined(taken, step, Seq::empty());
            }
            return (steps, Err(PagingError::NotAligned));
        }
        proof {
            lemma_step_joined(
                taken,
                step,
                spec_unmap_region::<PTE>(
                    handler.frames(),
                    root,
                    levels,
                    (cur + bytes) as usize,
                    (remaining - bytes) as usize,
                ).steps,
            );
        }
        cur = cur + bytes;
        remaining = remaining - bytes;
    }
    proof {
        lemma_unmap_region_step::<PTE>(handler.frames(), root, levels, cur, remaining);
        lemma_step_joined(steps@, RegionStep { vaddr, size: PageSize::Size4K, edited: false }, steps@);
    }
    (steps, Ok(()))
}

/// What setting the permissions of the range of `size` bytes at `vaddr` to
/// `flags` does, page by page.
///
/// The page at `vaddr` is changed first. Where there is no mapping, 4K are
/// passed over as a step that edits nothing. Where the change fails otherwise, the edit ends with
/// the error. Where the page does not start at `vaddr` or is longer than the
/// range, the edit ends with `NotAligned`, after the page was changed. Else
/// the edit goes on behind the page.
#[verifier::opaque]
pub open spec fn spec_protect_region<PTE: GenericPTE>(
    frames: Map<usize, Seq<u64>>,
    root: usize,
    levels: usize,
    vaddr: usize,
    size: usize,
    flags: MappingFlags,
) -> RegionOutcome
    decreases size,
{
    if size == 0 {
        RegionOutcome { frames, steps: Seq::empty(), result: Ok(()) }
    } else {
        let changed = spec_protect_frames::<PTE>(frames, root, levels, vaddr, flags);
        match spec_protect_result::<PTE>(frames, root, levels, vaddr) {
            Ok(page_size) => {
                let step = RegionStep { vaddr, size: page_size, edited: true };
                if vaddr % page_size.spec_bytes() != 0 || page_size.spec_bytes() > size {
                    RegionOutcome {
                        frames: changed,
                        steps: seq![step],
                        result: Err(PagingError::NotAligned),
                    }
                } else {
                    let rest = spec_protect_region::<PTE>(
                        changed,
                        root,
                        levels,
                        (vaddr + page_size.spec_bytes()) as usize,
                        (size - page_size.spec_bytes()) as usize,
                        flags,
                    );
                    RegionOutcome {
                        frames: rest.frames,
                        steps: seq![step] + rest.steps,
                        result: rest.result,
                    }
                }
            },
            Err(err) => if err == PagingError::NotMapped && size >= 0x1000 {
                let step = RegionStep { vaddr, size: PageSize::Size4K, edited: false };
                let rest = spec_protect_region::<PTE>(
                    frames,
                    root,
                    levels,
                    (vaddr + 0x1000) as usize,
                    (size - 0x1000) as usize,
                    flags,
                );
                RegionOutcome {
                    frames: rest.frames,
                    steps: seq![step] + rest.steps,
                    result: rest.result,
                }
            } else {
                RegionOutcome { frames, steps: Seq::empty(), result: Err(err) }
            },
        }
    }
}

/// What setting the permissions of a range does. A start or a size that is
/// not a multiple of 4K is refused with `NotAligned`, and nothing changes.
/// Else the range is changed page by page as [`spec_protect_region`] says.
pub open spec fn protect_region_outcome<PTE: GenericPTE>(
    before: Map<usize, Seq<u64>>,
    root: usize,
    levels: usize,
    vaddr: usize,
    size: usize,
    flags: MappingFlags,
) -> RegionOutcome {
    if vaddr % 0x1000 != 0 || size % 0x1000 != 0 {
        RegionOutcome {
            frames: before,
            steps: Seq::empty(),
            result: Err(PagingError::NotAligned),
        }
    } else {
        spec_protect_region::<PTE>(before, root, levels, vaddr, size, flags)
    }
}

/// Updates mapping flags of a contiguous virtual memory region, and returns
/// the pages that were changed with the result.
#[verifier::rlimit(50)]
pub fn protect_region_pages<PTE: GenericPTE, H: PagingHandler>(
    handler: &mut H,
    root: usize,
    levels: usize,
    vaddr: usize,
    size: usize,
    flags: MappingFlags,
) -> (r: (Vec<RegionStep>, Result<(), PagingError>))
    requires
        old(handler).inv(),
        levels == 3 || levels == 4,
        vaddr + size <= usize::MAX,
    ensures
        final(handler).inv(),
        protect_region_outcome::<PTE>(old(handler).frames(), root, levels, vaddr, size, flags)
            == (RegionOutcome { frames: final(handler).frames(), steps: r.0@, result: r.1 }),
{
    let mut steps: Vec<RegionStep> = Vec::new();
    if !PageSize::Size4K.is_aligned(vaddr) || !PageSize::Size4K.is_aligned(size) {
        return (steps, Err(PagingError::NotAligned));
    }
    let ghost total = spec_protect_region::<PTE>(
        handler.frames(),
        root,
        levels,
        vaddr,
        size,
        flags,
    );
    let mut cur: usize = vaddr;
    let mut remaining: usize = size;
    proof {
        assert(steps@ + total.steps =~= total.steps);
    }
    while remaining > 0
        invariant
            handler.inv(),
            levels == 3 || levels == 4,
            vaddr % 0x1000 == 0,
            size % 0x1000 == 0,
            cur % 0x1000 == 0,
            remaining % 0x1000 == 0,
            total == spec_protect_region::<PTE>(
                old(handler).frames(),
                root,
                levels,
                vaddr,
                size,
                flags,
            ),
            cur + remaining <= usize::MAX,
            total.frames == spec_protect_region::<PTE>(
                handler.frames(),
                root,
                levels,
                cur,
                remaining,
                flags,
            ).frames,
            total.steps == steps@ + spec_protect_region::<PTE>(
                handler.frames(),
                root,
                levels,
                cur,
                remaining,
                flags,
            ).steps,
            total.result == spec_protect_region::<PTE>(
                handler.frames(),
                root,
                levels,
                cur,
                remaining,
                flags,
            ).result,
        decreases remaining,
    {
        let ghost taken = steps@;
        proof {
            lemma_protect_region_step::<PTE>(
                handler.frames(),
                root,
                levels,
                cur,
                remaining,
                flags,
            );
        }
        let bytes: usize = match protect_step::<PTE, H>(handler, root, levels, cur, flags) {
            Ok(page_size) => {
                let bytes: usize = usize::from(page_size);
                let ghost step = RegionStep { vaddr: cur, size: page_size, edited: true };
                steps.push(RegionStep { vaddr: cur, size: page_size, edited: true });
                if !page_size.is_aligned(cur) || bytes > remaining {
                    proof {
                        lemma_step_joined(taken, step, Seq::empty());
                    }
                    return (steps, Err(PagingError::NotAligned));
                }
                proof {
                    lemma_step_joined(
                        taken,
                        step,
                        spec_protect_region::<PTE>(
                            handler.frames(),
                            root,
                            levels,
                            (cur + bytes) as usize,
                            (remaining - bytes) as usize,
                            flags,
                        ).steps,
                    );
                    crate::lemma_low_bits(cur, page_size);
                }
                bytes
            },
            Err(err) => {
                if err != PagingError::NotMapped {
                    proof {
                        lemma_step_joined(
                            taken,
                            RegionStep { vaddr, size: PageSize::Size4K, edited: false },
                            taken,
                        );
                    }
                    return (steps, Err(err));
                }
                // Allow skipping unmapped pages.
                let ghost step = RegionStep { vaddr: cur, size: PageSize::Size4K, edited: false };
                steps.push(RegionStep { vaddr: cur, size: PageSize::Size4K, edited: false });
                proof {
                    lemma_step_joined(
                        taken,
                        step,
                        spec_protect_region::<PTE>(
                            handler.frames(),
                            root,
                            levels,
                            (cur + 0x1000) as usize,
                            (remaining - 0x1000) as usize,
                            flags,
                        ).steps,
                    );
                }
                0x1000
            },
        };
        cur = cur + bytes;
        remaining = remaining - bytes;
    }
    proof {
        lemma_protect_region_step::<PTE>(handler.frames(), root, levels, cur, remaining, flags);
        lemma_step_joined(steps@, RegionStep { vaddr, size: PageSize::Size4K, edited: false }, steps@);
    }
    (steps, Ok(()))
}

/// A step put before steps that follow it without a gap gives steps without
/// a gap.
pub proof fn lemma_chained_prepend(step: RegionStep, rest: Seq<RegionStep>, from: usize)
    requires
        step.vaddr == from,
        from + step.size.spec_bytes() <= usize::MAX,
        chained(rest, (from + step.size.spec_bytes()) as usize),
    ensures
        chained(seq![step] + rest, from),
        steps_end(seq![step] + rest, from) == steps_end(
            rest,
            (from + step.size.spec_bytes()) as usize,
        ),
{
    let all = seq![step] + rest;
    assert(all[0] == step);
    assert forall|k: int| 0 <= k < all.len() - 1 implies (#[trigger] all[k + 1]).vaddr
        == all[k].vaddr + all[k].size.spec_bytes() by {
        assert(all[k + 1] == rest[k]);
        if k > 0 {
            assert(all[k] == rest[k - 1]);
            assert(rest[(k - 1) + 1] == rest[k]);
        }
    }
    if rest.len() > 0 {
        assert(all.last() == rest.last());
    }
}

/// The sizes of the steps of mapping a range add up to the size of the
/// range, when the mapping succeeds.
pub proof fn lemma_map_region_sum<PTE: GenericPTE, F: Fn(usize) -> usize>(
    before: Map<usize, Seq<u64>>,
    after: Map<usize, Seq<u64>>,
    root: usize,
    levels: usize,
    vaddr: usize,
    get_paddr: F,
    size: usize,
    flags: MappingFlags,
    allow_huge: bool,
    range: Option<(usize, usize)>,
    steps: Seq<RegionStep>,
)
    requires
        map_region_outcome::<PTE, F>(
            before,
            after,
            root,
            levels,
            vaddr,
            get_paddr,
            size,
            flags,
            allow_huge,
            range,
            steps,
            Ok(()),
        ),
    ensures
        steps_bytes(steps) == size,
{
    lemma_steps_sum(steps, vaddr);
}

/// Why mapping a range stopped, in a tree that shares nothing: unless memory
/// ran out, the way to the page at which it stopped is blocked with the
/// error, or ends at a descriptor that is in use and the error is
/// `AlreadyMapped`. The physical address that the page was given is
/// returned.
pub proof fn lemma_map_region_stops<PTE: GenericPTE, F: Fn(usize) -> usize>(
    before: Map<usize, Seq<u64>>,
    after: Map<usize, Seq<u64>>,
    root: usize,
    levels: usize,
    vaddr: usize,
    get_paddr: F,
    size: usize,
    flags: MappingFlags,
    allow_huge: bool,
    steps: Seq<RegionStep>,
    err: PagingError,
) -> (paddr: usize)
    requires
        vaddr % 0x1000 == 0,
        size % 0x1000 == 0,
        map_region_outcome::<PTE, F>(
            before,
            after,
            root,
            levels,
            vaddr,
            get_paddr,
            size,
            flags,
            allow_huge,
            None,
            steps,
            Err(err),
        ),
        err != PagingError::NoMemory,
    ensures
        get_paddr.ensures((steps_end(steps, vaddr) as usize,), paddr),
        ({
            let cur = steps_end(steps, vaddr) as usize;
            let picked = spec_pick_page_size(allow_huge, cur, paddr, (vaddr + size - cur) as usize);
            match crate::walk64::target_slot::<PTE>(after, root, levels, cur, picked) {
                Ok(Some(slot)) => err == PagingError::AlreadyMapped && !entry_at::<PTE>(
                    after,
                    slot.table,
                    slot.index,
                ).unwrap().spec_is_unused(),
                Ok(None) => false,
                Err(e) => err == e,
            }
        }),
{
    reveal(step_failed);
    let cur = steps_end(steps, vaddr) as usize;
    let end: int = vaddr + size;
    let (then, mid, paddr, was, now) = choose|
        then: Map<usize, Seq<u64>>,
        mid: Map<usize, Seq<u64>>,
        paddr: usize,
        was: bool,
        now: bool,
    |
        step_failed_at::<PTE, F>(
            before,
            then,
            mid,
            after,
            root,
            levels,
            None,
            get_paddr,
            flags,
            allow_huge,
            end,
            cur,
            err,
            paddr,
            was,
            now,
        );
    paddr
}

/// The steps of unmapping a range follow one another from its start, and
/// when the unmapping succeeds they end at its end: their sizes add up to
/// the size of the range.
pub proof fn lemma_unmap_region_sum<PTE: GenericPTE>(
    frames: Map<usize, Seq<u64>>,
    root: usize,
    levels: usize,
    vaddr: usize,
    size: usize,
)
    requires
        vaddr + size <= usize::MAX,
    ensures
        chained(spec_unmap_region::<PTE>(frames, root, levels, vaddr, size).steps, vaddr),
        spec_unmap_region::<PTE>(frames, root, levels, vaddr, size).result is Ok ==> {
            &&& steps_end(spec_unmap_region::<PTE>(frames, root, levels, vaddr, size).steps, vaddr)
                == vaddr + size
            &&& steps_bytes(spec_unmap_region::<PTE>(frames, root, levels, vaddr, size).steps)
                == size
        },
    decreases size,
{
    lemma_unmap_region_step::<PTE>(frames, root, levels, vaddr, size);
    let out = spec_unmap_region::<PTE>(frames, root, levels, vaddr, size);
    if size > 0 {
        match spec_unmap_result::<PTE>(frames, root, levels, vaddr) {
            Ok((_, _, page_size)) => {
                let step = RegionStep { vaddr, size: page_size, edited: true };
                if vaddr % page_size.spec_bytes() != 0 || page_size.spec_bytes() > size {
                    assert(out.steps =~= seq![step]);
                } else {
                    let next = (vaddr + page_size.spec_bytes()) as usize;
                    let left = (size - page_size.spec_bytes()) as usize;
                    let unmapped = spec_unmap_frames::<PTE>(frames, root, levels, vaddr);
                    lemma_unmap_region_sum::<PTE>(unmapped, root, levels, next, left);
                    let rest = spec_unmap_region::<PTE>(unmapped, root, levels, next, left);
                    lemma_chained_prepend(step, rest.steps, vaddr);
                }
            },
            Err(_) => {},
        }
    }
    lemma_steps_sum(out.steps, vaddr);
}

/// The steps of setting the permissions of a range follow one another from
/// its start, and when the edit succeeds they end at its end: their sizes
/// add up to the size of the range.
pub proof fn lemma_protect_region_sum<PTE: GenericPTE>(
    frames: Map<usize, Seq<u64>>,
    root: usize,
    levels: usize,
    vaddr: usize,
    size: usize,
    flags: MappingFlags,
)
    requires
        vaddr + size <= usize::MAX,
    ensures
        chained(spec_protect_region::<PTE>(frames, root, levels, vaddr, size, flags).steps, vaddr),
        spec_protect_region::<PTE>(frames, root, levels, vaddr, size, flags).result is Ok ==> {
            &&& steps_end(
                spec_protect_region::<PTE>(frames, root, levels, vaddr, size, flags).steps,
                vaddr,
            ) == vaddr + size
            &&& steps_bytes(
                spec_protect_region::<PTE>(frames, root, levels, vaddr, size, flags).steps,
            ) == size
        },
    decreases size,
{
    lemma_protect_region_step::<PTE>(frames, root, levels, vaddr, size, flags);
    let out = spec_protect_region::<PTE>(frames, root, levels, vaddr, size, flags);
    if size > 0 {
        match spec_protect_result::<PTE>(frames, root, levels, vaddr) {
            Ok(page_size) => {
                let step = RegionStep { vaddr, size: page_size, edited: true };
                if vaddr % page_size.spec_bytes() != 0 || page_size.spec_bytes() > size {
                    assert(out.steps =~= seq![step]);
                } else {
                    let next = (vaddr + page_size.spec_bytes()) as usize;
                    let left = (size - page_size.spec_bytes()) as usize;
                    let changed = spec_protect_frames::<PTE>(frames, root, levels, vaddr, flags);
                    lemma_protect_region_sum::<PTE>(changed, root, levels, next, left, flags);
                    let rest = spec_protect_region::<PTE>(
                        changed,
                        root,
                        levels,
                        next,
                        left,
                        flags,
                    );
                    lemma_chained_prepend(step, rest.steps, vaddr);
                }
            },
            Err(err) => {
                if err == PagingError::NotMapped && size >= 0x1000 {
                    let step = RegionStep { vaddr, size: PageSize::Size4K, edited: false };
                    let next = (vaddr + 0x1000) as usize;
                    let left = (size - 0x1000) as usize;
                    lemma_protect_region_sum::<PTE>(frames, root, levels, next, left, flags);
                    let rest = spec_protect_region::<PTE>(
                        frames,
                        root,
                        levels,
                        next,
                        left,
                        flags,
                    );
                    lemma_chained_prepend(step, rest.steps, vaddr);
                }
            },
        }
    }
    lemma_steps_sum(out.steps, vaddr);
}

/// Steps that follow one another cover every address from their start to
/// their end: each address lies in the page of one step.
pub proof fn lemma_covering(steps: Seq<RegionStep>, from: usize, vaddr: usize) -> (k: int)
    requires
        chained(steps, from),
        from <= vaddr < steps_end(steps, from),
    ensures
        0 <= k < steps.len(),
        steps[k].vaddr <= vaddr < steps[k].vaddr + steps[k].size.spec_bytes(),
    decreases steps.len(),
{
    if vaddr >= steps.last().vaddr {
        steps.len() - 1
    } else {
        let init = steps.drop_last();
        assert(chained(init, from)) by {
            assert forall|j: int| 0 <= j < init.len() - 1 implies (#[trigger] init[j + 1]).vaddr
                == init[j].vaddr + init[j].size.spec_bytes() by {
                assert(init[j + 1] == steps[j + 1]);
                assert(init[j] == steps[j]);
            }
            if init.len() > 0 {
                assert(init[0] == steps[0]);
            }
        }
        if init.len() > 0 {
            let j = steps.len() - 2;
            assert(steps[j + 1].vaddr == steps[j].vaddr + steps[j].size.spec_bytes());
            assert(init.last() == steps[j]);
        }
        let k = lemma_covering(init, from, vaddr);
        assert(init[k] == steps[k]);
        k
    }
}

/// After a range was mapped, a query of any address in it answers with the
/// translation of the page that was mapped there: the page of one of the
/// steps, with a physical address that `get_paddr` gave for the start of the
/// page. This holds for some permission and frames that table descriptors
/// can point to.
pub proof fn lemma_map_region_queries<PTE: GenericPTE, F: Fn(usize) -> usize>(
    before: Map<usize, Seq<u64>>,
    after: Map<usize, Seq<u64>>,
    root: usize,
    levels: usize,
    vaddr: usize,
    get_paddr: F,
    size: usize,
    flags: MappingFlags,
    allow_huge: bool,
    range: Option<(usize, usize)>,
    steps: Seq<RegionStep>,
    address: usize,
) -> (found: (int, usize))
    requires
        map_region_outcome::<PTE, F>(
            before,
            after,
            root,
            levels,
            vaddr,
            get_paddr,
            size,
            flags,
            allow_huge,
            range,
            steps,
            Ok(()),
        ),
        frames_fit::<PTE>(after),
        !flags.spec_is_empty(),
        vaddr <= address < vaddr + size,
    ensures
        0 <= found.0 < steps.len(),
        steps[found.0].vaddr <= address < steps[found.0].vaddr + steps[found.0].size.spec_bytes(),
        get_paddr.ensures((steps[found.0].vaddr,), found.1),
        spec_query::<PTE>(after, root, levels, address) == translation(
            page_entry::<PTE>(found.1, steps[found.0].size, flags),
            steps[found.0].size,
            address,
        ),
{
    reveal(step_mapped);
    let k = lemma_covering(steps, vaddr, address);
    let step = steps[k];
    let end: int = vaddr + size;
    assert(step_mapped::<PTE, F>(after, root, levels, get_paddr, flags, allow_huge, end, step));
    let paddr = choose|paddr: usize|
        step_mapped_to::<PTE, F>(
            after,
            root,
            levels,
            get_paddr,
            flags,
            allow_huge,
            end,
            step,
            paddr,
        );
    lemma_mapped_within::<PTE>(
        after,
        root,
        levels,
        step.vaddr,
        address,
        page_entry::<PTE>(paddr, step.size, flags),
        step.size,
    );
    (k, paddr)
}

/// An address without a mapping has none after any descriptor was cleared.
pub proof fn lemma_cleared_stays_unmapped<PTE: GenericPTE>(
    frames: Map<usize, Seq<u64>>,
    root: usize,
    levels: usize,
    slot: Slot,
    vaddr: usize,
)
    requires
        levels == 3 || levels == 4,
        spec_query::<PTE>(frames, root, levels, vaddr) is Err,
        entry_at::<PTE>(frames, slot.table, slot.index) is Some,
    ensures
        spec_query::<PTE>(write_slot(frames, slot, 0), root, levels, vaddr) is Err,
{
    let after = write_slot(frames, slot, 0);
    PTE::lemma_zero();
    assert forall|t: usize, i: usize| #[trigger]
        entry_at::<PTE>(after, t, i) == if t == slot.table && i == slot.index {
            Some(PTE::spec_from_raw(0))
        } else {
            entry_at::<PTE>(frames, t, i)
        } by {
        if entry_at::<PTE>(frames, t, i) is Some && t == slot.table && i != slot.index {
            assert(after[t][i as int] == frames[t][i as int]);
        }
    }
    let i4 = spec_p4_index(vaddr);
    let i3 = spec_p3_index(vaddr);
    let i2 = spec_p2_index(vaddr);
    let i1 = spec_p1_index(vaddr);
    let a = entry_at::<PTE>(after, root, i4);
    let b = entry_at::<PTE>(frames, root, i4);
    assert(a == b || a == Some(PTE::spec_from_raw(0)));
    if top_table::<PTE>(after, root, levels, vaddr) is Ok {
        let p3 = top_table::<PTE>(after, root, levels, vaddr).unwrap();
        assert(top_table::<PTE>(frames, root, levels, vaddr) == Ok::<usize, PagingError>(p3));
        let a3 = entry_at::<PTE>(after, p3, i3);
        if a3 is Some && a3 == entry_at::<PTE>(frames, p3, i3) {
            let e3 = a3.unwrap();
            if !e3.spec_is_huge() && crate::walk64::spec_next_table(e3) is Ok {
                let p2 = crate::walk64::spec_next_table(e3).unwrap();
                let a2 = entry_at::<PTE>(after, p2, i2);
                if a2 is Some && a2 == entry_at::<PTE>(frames, p2, i2) {
                    let e2 = a2.unwrap();
                    if !e2.spec_is_huge() && crate::walk64::spec_next_table(e2) is Ok {
                        let p1 = crate::walk64::spec_next_table(e2).unwrap();
                        let a1 = entry_at::<PTE>(after, p1, i1);
                        assert(a1 == entry_at::<PTE>(frames, p1, i1) || a1 == Some(
                            PTE::spec_from_raw(0),
                        ));
                    }
                }
            }
        }
    }
}

/// An address without a mapping has none after a range was unmapped.
pub proof fn lemma_unmap_region_keeps_unmapped<PTE: GenericPTE>(
    frames: Map<usize, Seq<u64>>,
    root: usize,
    levels: usize,
    vaddr: usize,
    size: usize,
    address: usize,
)
    requires
        levels == 3 || levels == 4,
        spec_query::<PTE>(frames, root, levels, address) is Err,
    ensures
        spec_query::<PTE>(
            spec_unmap_region::<PTE>(frames, root, levels, vaddr, size).frames,
            root,
            levels,
            address,
        ) is Err,
    decreases size,
{
    lemma_unmap_region_step::<PTE>(frames, root, levels, vaddr, size);
    if size > 0 {
        reveal(spec_unmap_frames);
        reveal(spec_unmap_result);
        let unmapped = spec_unmap_frames::<PTE>(frames, root, levels, vaddr);
        if locate::<PTE>(frames, root, levels, vaddr) is Ok {
            let slot = locate::<PTE>(frames, root, levels, vaddr).unwrap().0;
            lemma_cleared_stays_unmapped::<PTE>(frames, root, levels, slot, address);
        }
        match spec_unmap_result::<PTE>(frames, root, levels, vaddr) {
            Ok((_, _, page_size)) => {
                if !(vaddr % page_size.spec_bytes() != 0 || page_size.spec_bytes() > size) {
                    lemma_unmap_region_keeps_unmapped::<PTE>(
                        unmapped,
                        root,
                        levels,
                        (vaddr + page_size.spec_bytes()) as usize,
                        (size - page_size.spec_bytes()) as usize,
                        address,
                    );
                }
            },
            Err(_) => {},
        }
    }
}

/// After a range was unmapped with success, no address in it has a mapping.
pub proof fn lemma_unmap_region_clears<PTE: GenericPTE>(
    frames: Map<usize, Seq<u64>>,
    root: usize,
    levels: usize,
    vaddr: usize,
    size: usize,
    address: usize,
)
    requires
        levels == 3 || levels == 4,
        vaddr + size <= usize::MAX,
        vaddr <= address < vaddr + size,
        spec_unmap_region::<PTE>(frames, root, levels, vaddr, size).result is Ok,
    ensures
        spec_query::<PTE>(
            spec_unmap_region::<PTE>(frames, root, levels, vaddr, size).frames,
            root,
            levels,
            address,
        ) is Err,
    decreases size,
{
    lemma_unmap_region_step::<PTE>(frames, root, levels, vaddr, size);
    reveal(spec_unmap_frames);
    reveal(spec_unmap_result);
    let unmapped = spec_unmap_frames::<PTE>(frames, root, levels, vaddr);
    match spec_unmap_result::<PTE>(frames, root, levels, vaddr) {
        Ok((_, _, page_size)) => {
            let next = (vaddr + page_size.spec_bytes()) as usize;
            let left = (size - page_size.spec_bytes()) as usize;
            if address < next {
                let (slot, found) = locate::<PTE>(frames, root, levels, vaddr).unwrap();
                lemma_cleared::<PTE>(frames, root, levels, vaddr);
                lemma_same_page(vaddr, address, page_size);
                assert(spec_query::<PTE>(unmapped, root, levels, address) is Err) by {
                    lemma_cleared_at::<PTE>(frames, root, levels, vaddr, address, page_size);
                }
                lemma_unmap_region_keeps_unmapped::<PTE>(
                    unmapped,
                    root,
                    levels,
                    next,
                    left,
                    address,
                );
            } else {
                lemma_unmap_region_clears::<PTE>(unmapped, root, levels, next, left, address);
            }
        },
        Err(_) => {},
    }
}

/// Once the descriptor that translates the start of a page is cleared, no
/// address in the page has a mapping.
pub proof fn lemma_cleared_at<PTE: GenericPTE>(
    frames: Map<usize, Seq<u64>>,
    root: usize,
    levels: usize,
    base: usize,
    vaddr: usize,
    size: PageSize,
)
    requires
        levels == 3 || levels == 4,
        size != PageSize::Size1M,
        base % size.spec_bytes() == 0,
        base <= vaddr < base + size.spec_bytes(),
        locate::<PTE>(frames, root, levels, base) is Ok,
        locate::<PTE>(frames, root, levels, base).unwrap().1 == size,
    ensures
        spec_query::<PTE>(
            write_slot(frames, locate::<PTE>(frames, root, levels, base).unwrap().0, 0),
            root,
            levels,
            vaddr,
        ) is Err,
{
    lemma_same_page(base, vaddr, size);
    let slot = locate::<PTE>(frames, root, levels, base).unwrap().0;
    let after = write_slot(frames, slot, 0);
    PTE::lemma_zero();
    assert forall|t: usize, i: usize| #[trigger] entry_at::<PTE>(frames, t, i) is Some implies if t
        == slot.table && i == slot.index {
        entry_at::<PTE>(after, t, i) == Some(PTE::spec_from_raw(0))
    } else {
        entry_at::<PTE>(after, t, i) == entry_at::<PTE>(frames, t, i)
    } by {
        if t == slot.table && i != slot.index {
            assert(after[t][i as int] == frames[t][i as int]);
        }
    }
    let i4 = spec_p4_index(base);
    let i3 = spec_p3_index(base);
    let i2 = spec_p2_index(base);
    let i1 = spec_p1_index(base);
    let p3 = top_table::<PTE>(frames, root, levels, base).unwrap();
    if levels == 4 {
        assert(entry_at::<PTE>(frames, root, i4) is Some);
    }
    assert(entry_at::<PTE>(frames, p3, i3) is Some);
    let e3 = entry_at::<PTE>(frames, p3, i3).unwrap();
    if !e3.spec_is_huge() {
        let p2 = crate::walk64::spec_next_table(e3).unwrap();
        assert(entry_at::<PTE>(frames, p2, i2) is Some);
        let e2 = entry_at::<PTE>(frames, p2, i2).unwrap();
        if !e2.spec_is_huge() {
            let p1 = crate::walk64::spec_next_table(e2).unwrap();
            assert(entry_at::<PTE>(frames, p1, i1) is Some);
        }
    }
}

} // verus!
