//! Edits of a contiguous range of virtual addresses in a tree of two
//! levels: the range is cut into sections and pages, and each is edited as a
//! single page is.

use vstd::prelude::*;
use crate::{PageSize, PagingError};
use crate::entry::{GenericPTE, MappingFlags};
use crate::handler::PagingHandler;
use crate::owned32::{map_owned, table_ok, tree_wf};
use crate::region64::{
    chained, lemma_chained_prepend, lemma_chained_push, lemma_step_joined, lemma_steps_sum,
    steps_bytes, steps_end, RegionOutcome, RegionStep,
};
use crate::walk32::{
    entry_at, frames_fit, lemma_map_effect, lemma_query_preserved, lemma_unused_changed_twice,
    locate, map_effect, map_outcome, map_page, mapped_by, only_unused_changed, page_entry,
    protect_page,
    spec_p1_index, spec_p2_index, spec_protect_frames, spec_protect_result, spec_query,
    spec_unmap_frames, spec_unmap_result, translation, unmap_page,
};

verus! {

/// The page size for the next step of mapping a range: a section where
/// `allow_huge` admits it, both addresses are aligned to 1M, and 1M fits in
/// the `remaining` bytes, and else a page of 4K.
pub open spec fn spec_pick_page_size(
    allow_huge: bool,
    vaddr: usize,
    paddr: usize,
    remaining: usize,
) -> PageSize {
    if allow_huge && vaddr % 0x10_0000 == 0 && paddr % 0x10_0000 == 0 && remaining >= 0x10_0000 {
        PageSize::Size1M
    } else {
        PageSize::Size4K
    }
}

/// Picks the page size for the next step of mapping a range.
pub fn pick_page_size(allow_huge: bool, vaddr: usize, paddr: usize, remaining: usize) -> (r:
    PageSize)
    ensures
        r == spec_pick_page_size(allow_huge, vaddr, paddr, remaining),
        r == PageSize::Size4K || r == PageSize::Size1M,
        remaining >= 0x1000 ==> r.spec_bytes() <= remaining,
        vaddr % 0x1000 == 0 ==> vaddr % r.spec_bytes() == 0,
{
    if allow_huge && PageSize::Size1M.is_aligned(vaddr) && PageSize::Size1M.is_aligned(paddr)
        && remaining >= 0x10_0000 {
        PageSize::Size1M
    } else {
        PageSize::Size4K
    }
}

/// Two addresses in one page of `size` have the same index at the level of
/// that size and at the level above.
pub proof fn lemma_same_page(base: usize, vaddr: usize, size: PageSize)
    requires
        size == PageSize::Size4K || size == PageSize::Size1M,
        base % size.spec_bytes() == 0,
        base <= vaddr < base + size.spec_bytes(),
    ensures
        spec_p1_index(vaddr) == spec_p1_index(base),
        size == PageSize::Size4K ==> spec_p2_index(vaddr) == spec_p2_index(base),
{
    let b: u64 = base as u64;
    let v: u64 = vaddr as u64;
    assert((b % 0x10_0000 == 0 && b <= v && v - b < 0x10_0000 ==> (v >> 20) & 0xfff == (b >> 20)
        & 0xfff) && (b % 0x1000 == 0 && b <= v && v - b < 0x1000 ==> (v >> 20) & 0xfff == (b
        >> 20) & 0xfff && (v >> 12) & 0xff == (b >> 12) & 0xff)) by (bit_vector);
}

/// The descriptor that maps a page maps every address of the page: where the
/// walk for the start of a page of `size` ends at a descriptor, the walk for
/// any address in the page ends at the same one.
pub proof fn lemma_mapped_within<PTE: GenericPTE>(
    frames: Map<usize, Seq<u64>>,
    root: usize,
    base: usize,
    vaddr: usize,
    entry: PTE,
    size: PageSize,
)
    requires
        size == PageSize::Size4K || size == PageSize::Size1M,
        base % size.spec_bytes() == 0,
        base <= vaddr < base + size.spec_bytes(),
        mapped_by::<PTE>(frames, root, base, entry, size),
    ensures
        mapped_by::<PTE>(frames, root, vaddr, entry, size),
        spec_query::<PTE>(frames, root, vaddr) == translation(entry, size, vaddr),
{
    reveal(mapped_by);
    lemma_same_page(base, vaddr, size);
}

/// What holds of one step of mapping a range that ends at `end`, for the
/// physical address `paddr` that the page was given: the address came from
/// `get_paddr`, the size is the one that [`spec_pick_page_size`] picks, the
/// page lies in the range, and a lookup of its start ends at the descriptor
/// that was written for it, as long as table descriptors can point to all
/// the frames and some permission was given.
pub open spec fn step_mapped_to<PTE: GenericPTE, F: Fn(usize) -> usize>(
    frames: Map<usize, Seq<u64>>,
    root: usize,
    get_paddr: F,
    flags: MappingFlags,
    allow_huge: bool,
    end: int,
    step: RegionStep,
    paddr: usize,
) -> bool {
    &&& step.edited
    &&& get_paddr.ensures((step.vaddr,), paddr)
    &&& step.size == spec_pick_page_size(
        allow_huge,
        step.vaddr,
        paddr,
        (end - step.vaddr) as usize,
    )
    &&& step.vaddr % step.size.spec_bytes() == 0
    &&& step.vaddr + step.size.spec_bytes() <= end
    &&& frames_fit::<PTE>(frames) && !flags.spec_is_empty() ==> mapped_by::<PTE>(
        frames,
        root,
        step.vaddr,
        page_entry::<PTE>(paddr, step.size, flags),
        step.size,
    )
}

/// What holds of one step of mapping a range: [`step_mapped_to`], for some
/// physical address.
#[verifier::opaque]
pub open spec fn step_mapped<PTE: GenericPTE, F: Fn(usize) -> usize>(
    frames: Map<usize, Seq<u64>>,
    root: usize,
    get_paddr: F,
    flags: MappingFlags,
    allow_huge: bool,
    end: int,
    step: RegionStep,
) -> bool {
    exists|paddr: usize|
        step_mapped_to::<PTE, F>(
            frames,
            root,
            get_paddr,
            flags,
            allow_huge,
            end,
            step,
            paddr,
        )
}

/// A descriptor in use that maps an address still maps it in every later
/// state of the frames that left the descriptors in use as they were.
pub proof fn lemma_mapped_by_preserved<PTE: GenericPTE>(
    before: Map<usize, Seq<u64>>,
    after: Map<usize, Seq<u64>>,
    root: usize,
    vaddr: usize,
    entry: PTE,
    size: PageSize,
)
    requires
        only_unused_changed::<PTE>(before, after),
        mapped_by::<PTE>(before, root, vaddr, entry, size),
        entry.spec_is_present(),
    ensures
        mapped_by::<PTE>(after, root, vaddr, entry, size),
{
    reveal(mapped_by);
    PTE::lemma_present(entry);
    lemma_query_preserved::<PTE>(before, after, root, vaddr);
    let slot = locate::<PTE>(before, root, vaddr).unwrap().0;
    assert(entry_at::<PTE>(after, slot.table, slot.index) == Some(entry));
}

/// The steps of mapping a range that were taken stay as they were in every
/// later state of the frames that left the descriptors in use as they were.
pub proof fn lemma_steps_kept<PTE: GenericPTE, F: Fn(usize) -> usize>(
    before: Map<usize, Seq<u64>>,
    after: Map<usize, Seq<u64>>,
    root: usize,
    get_paddr: F,
    flags: MappingFlags,
    allow_huge: bool,
    end: int,
    steps: Seq<RegionStep>,
)
    requires
        only_unused_changed::<PTE>(before, after),
        before.dom().subset_of(after.dom()),
        forall|k: int|
            0 <= k < steps.len() ==> step_mapped::<PTE, F>(
                before,
                root,
                get_paddr,
                flags,
                allow_huge,
                end,
                #[trigger] steps[k],
            ),
    ensures
        forall|k: int|
            0 <= k < steps.len() ==> step_mapped::<PTE, F>(
                after,
                root,
                get_paddr,
                flags,
                allow_huge,
                end,
                #[trigger] steps[k],
            ),
{
    reveal(step_mapped);
    assert forall|k: int| 0 <= k < steps.len() implies step_mapped::<PTE, F>(
        after,
        root,
        get_paddr,
        flags,
        allow_huge,
        end,
        #[trigger] steps[k],
    ) by {
        let s = steps[k];
        assert(step_mapped::<PTE, F>(
            before,
            root,
            get_paddr,
            flags,
            allow_huge,
            end,
            s,
        ));
        let p = choose|p: usize|
            step_mapped_to::<PTE, F>(
                before,
                root,
                get_paddr,
                flags,
                allow_huge,
                end,
                s,
                p,
            );
        if frames_fit::<PTE>(after) && !flags.spec_is_empty() {
            lemma_fit_subset::<PTE>(before, after);
            let e = page_entry::<PTE>(p, s.size, flags);
            PTE::lemma_new_page(s.size.spec_align_down(p), flags, s.size.spec_is_huge());
            lemma_mapped_by_preserved::<PTE>(before, after, root, s.vaddr, e, s.size);
        }
        assert(step_mapped_to::<PTE, F>(
            after,
            root,
            get_paddr,
            flags,
            allow_huge,
            end,
            s,
            p,
        ));
    }
}

/// A page that was just mapped is a step of mapping the range.
pub proof fn lemma_step_taken<PTE: GenericPTE, F: Fn(usize) -> usize>(
    frames: Map<usize, Seq<u64>>,
    root: usize,
    get_paddr: F,
    flags: MappingFlags,
    allow_huge: bool,
    end: int,
    step: RegionStep,
    paddr: usize,
    remaining: usize,
    mapped: Result<(), PagingError>,
)
    requires
        mapped is Ok,
        step.edited,
        get_paddr.ensures((step.vaddr,), paddr),
        step.vaddr % 0x1000 == 0,
        remaining >= 0x1000,
        step.vaddr + remaining == end,
        step.size == spec_pick_page_size(allow_huge, step.vaddr, paddr, remaining),
        frames_fit::<PTE>(frames) && (step.size == PageSize::Size4K || (page_entry::<PTE>(
            paddr,
            step.size,
            flags,
        ).spec_is_huge() && !page_entry::<PTE>(paddr, step.size, flags).spec_is_unused()))
            ==> mapped_by::<PTE>(
            frames,
            root,
            step.vaddr,
            page_entry::<PTE>(paddr, step.size, flags),
            step.size,
        ),
    ensures
        step_mapped::<PTE, F>(frames, root, get_paddr, flags, allow_huge, end, step),
{
    reveal(step_mapped);
    if !flags.spec_is_empty() {
        PTE::lemma_new_page(step.size.spec_align_down(paddr), flags, step.size.spec_is_huge());
        PTE::lemma_present(page_entry::<PTE>(paddr, step.size, flags));
    }
    assert(step_mapped_to::<PTE, F>(
        frames,
        root,
        get_paddr,
        flags,
        allow_huge,
        end,
        step,
        paddr,
    ));
}

/// What mapping a range does to the tables that a tree owns: `kept` are the
/// owned tables before and `now` after.
///
/// A well formed tree stays well formed, and owns what it owned and the
/// frames that were made, as long as table descriptors can point to all the
/// frames and some permission is given.
pub open spec fn region_owned<PTE: GenericPTE>(
    before: Map<usize, Seq<u64>>,
    after: Map<usize, Seq<u64>>,
    root: usize,
    kept: Map<usize, usize>,
    now: Map<usize, usize>,
    flags: MappingFlags,
) -> bool {
    tree_wf::<PTE>(before, root, kept) && frames_fit::<PTE>(after) && !flags.spec_is_empty() ==> {
        &&& tree_wf::<PTE>(after, root, now)
        &&& now.dom() =~= kept.dom().union(after.dom().difference(before.dom()))
    }
}

/// The tables that a tree owns after one more page of a range was mapped.
pub proof fn lemma_region_owned_step<PTE: GenericPTE>(
    start: Map<usize, Seq<u64>>,
    before: Map<usize, Seq<u64>>,
    after: Map<usize, Seq<u64>>,
    root: usize,
    kept: Map<usize, usize>,
    then: Map<usize, usize>,
    now: Map<usize, usize>,
    flags: MappingFlags,
    paddr: usize,
    page_size: PageSize,
    r: Result<(), PagingError>,
)
    requires
        start.dom().subset_of(before.dom()),
        before.dom().subset_of(after.dom()),
        region_owned::<PTE>(start, before, root, kept, then, flags),
        map_owned::<PTE>(
            before,
            after,
            root,
            then,
            now,
            page_entry::<PTE>(paddr, page_size, flags),
            page_size,
            r,
        ),
    ensures
        region_owned::<PTE>(start, after, root, kept, now, flags),
{
    if tree_wf::<PTE>(start, root, kept) && frames_fit::<PTE>(after) && !flags.spec_is_empty() {
        lemma_fit_subset::<PTE>(before, after);
        PTE::lemma_new_page(
            page_size.spec_align_down(paddr),
            flags,
            page_size.spec_is_huge(),
        );
        assert forall|f: usize| then.contains_key(f) implies before.contains_key(f) by {
            assert(table_ok::<PTE>(before, root, then, f));
        }
        assert(now.dom() =~= kept.dom().union(after.dom().difference(start.dom())));
    }
}

/// Maps one page of a range.
fn map_step<PTE: GenericPTE, H: PagingHandler>(
    handler: &mut H,
    root: usize,
    vaddr: usize,
    target: usize,
    page_size: PageSize,
    flags: MappingFlags,
    tables: &mut Ghost<Map<usize, usize>>,
) -> (r: Result<(), PagingError>)
    requires
        old(handler).inv(),
        PTE::spec_short(),
        page_size == PageSize::Size4K || page_size == PageSize::Size1M,
    ensures
        final(handler).inv(),
        map_effect::<PTE>(
            old(handler).frames(),
            final(handler).frames(),
            root,
            vaddr,
            page_entry::<PTE>(target, page_size, flags),
            page_size,
            r,
        ),
        map_owned::<PTE>(
            old(handler).frames(),
            final(handler).frames(),
            root,
            old(tables)@,
            final(tables)@,
            page_entry::<PTE>(target, page_size, flags),
            page_size,
            r,
        ),
        map_outcome::<PTE>(
            old(handler).frames(),
            final(handler).frames(),
            root,
            vaddr,
            page_entry::<PTE>(target, page_size, flags),
            page_size,
            r,
        ),
{
    let ghost before = handler.frames();
    let r = map_page::<PTE, H>(handler, root, vaddr, target, page_size, flags, tables);
    proof {
        lemma_map_effect::<PTE>(
            before,
            handler.frames(),
            root,
            vaddr,
            page_entry::<PTE>(target, page_size, flags),
            page_size,
            r,
        );
    }
    r
}

/// What holds of the page at `cur` that mapping a range stopped at with the
/// error `err`, for the frames `then` before the page was tried and the
/// physical address `paddr` that the page was given: the address came from
/// `get_paddr`, the pages before had changed only unused descriptors, and
/// mapping the page with the size that [`spec_pick_page_size`] picks failed
/// with `err` as [`map_outcome`] says.
pub open spec fn step_failed_at<PTE: GenericPTE, F: Fn(usize) -> usize>(
    before: Map<usize, Seq<u64>>,
    then: Map<usize, Seq<u64>>,
    after: Map<usize, Seq<u64>>,
    root: usize,
    get_paddr: F,
    flags: MappingFlags,
    allow_huge: bool,
    end: int,
    cur: usize,
    err: PagingError,
    paddr: usize,
) -> bool {
    let size = spec_pick_page_size(allow_huge, cur, paddr, (end - cur) as usize);
    &&& get_paddr.ensures((cur,), paddr)
    &&& only_unused_changed::<PTE>(before, then)
    &&& before.dom().subset_of(then.dom())
    &&& map_outcome::<PTE>(
        then,
        after,
        root,
        cur,
        page_entry::<PTE>(paddr, size, flags),
        size,
        Err(err),
    )
}

/// What holds of the page at `cur` that mapping a range stopped at with the
/// error `err`: [`step_failed_at`], for some frames before the page was
/// tried and some physical address.
#[verifier::opaque]
pub open spec fn step_failed<PTE: GenericPTE, F: Fn(usize) -> usize>(
    before: Map<usize, Seq<u64>>,
    after: Map<usize, Seq<u64>>,
    root: usize,
    get_paddr: F,
    flags: MappingFlags,
    allow_huge: bool,
    end: int,
    cur: usize,
    err: PagingError,
) -> bool {
    exists|then: Map<usize, Seq<u64>>, paddr: usize|
        step_failed_at::<PTE, F>(
            before,
            then,
            after,
            root,
            get_paddr,
            flags,
            allow_huge,
            end,
            cur,
            err,
            paddr,
        )
}

/// A page that could not be mapped is one that mapping a range stops at.
pub proof fn lemma_step_failed<PTE: GenericPTE, F: Fn(usize) -> usize>(
    before: Map<usize, Seq<u64>>,
    then: Map<usize, Seq<u64>>,
    after: Map<usize, Seq<u64>>,
    root: usize,
    get_paddr: F,
    flags: MappingFlags,
    allow_huge: bool,
    end: int,
    cur: usize,
    err: PagingError,
    paddr: usize,
)
    requires
        step_failed_at::<PTE, F>(
            before,
            then,
            after,
            root,
            get_paddr,
            flags,
            allow_huge,
            end,
            cur,
            err,
            paddr,
        ),
    ensures
        step_failed::<PTE, F>(before, after, root, get_paddr, flags, allow_huge, end, cur, err),
{
    reveal(step_failed);
}

/// One page of a range was mapped, exactly: mapping the page of `step` for
/// a physical address that `get_paddr` gave for its start led from the
/// frames `then` to the frames `after`, as [`map_outcome`] says of a
/// success.
#[verifier::opaque]
pub open spec fn step_done<PTE: GenericPTE, F: Fn(usize) -> usize>(
    then: Map<usize, Seq<u64>>,
    after: Map<usize, Seq<u64>>,
    root: usize,
    get_paddr: F,
    flags: MappingFlags,
    step: RegionStep,
) -> bool {
    exists|paddr: usize|
        {
            &&& get_paddr.ensures((step.vaddr,), paddr)
            &&& #[trigger] map_outcome::<PTE>(
                then,
                after,
                root,
                step.vaddr,
                page_entry::<PTE>(paddr, step.size, flags),
                step.size,
                Ok(()),
            )
        }
}

/// Mapping a range stopped at the page at `cur`, exactly: in the frames
/// `then`, the page failed with `err` as [`step_failed_at`] says, and left
/// the frames `after`.
#[verifier::opaque]
pub open spec fn step_stopped<PTE: GenericPTE, F: Fn(usize) -> usize>(
    then: Map<usize, Seq<u64>>,
    after: Map<usize, Seq<u64>>,
    root: usize,
    get_paddr: F,
    flags: MappingFlags,
    allow_huge: bool,
    end: int,
    cur: usize,
    err: PagingError,
) -> bool {
    exists|paddr: usize|
        step_failed_at::<PTE, F>(
            then,
            then,
            after,
            root,
            get_paddr,
            flags,
            allow_huge,
            end,
            cur,
            err,
            paddr,
        )
}

/// The frames that mapping a range went through, exactly: `states` holds
/// the frames before each step and after the last. The first are `before`;
/// each step led from its frames to the next as [`step_done`] says; after a
/// success the last are `after`, and after a failure the page at which the
/// mapping stopped led from the last to `after` as [`step_stopped`] says.
/// Nothing else is written: no page behind the last step, and none at or
/// behind a page that failed.
#[verifier::opaque]
pub open spec fn region_made<PTE: GenericPTE, F: Fn(usize) -> usize>(
    states: Seq<Map<usize, Seq<u64>>>,
    before: Map<usize, Seq<u64>>,
    after: Map<usize, Seq<u64>>,
    root: usize,
    get_paddr: F,
    flags: MappingFlags,
    allow_huge: bool,
    end: int,
    cur: usize,
    steps: Seq<RegionStep>,
    r: Result<(), PagingError>,
) -> bool {
    &&& states.len() == steps.len() + 1
    &&& states[0] == before
    &&& forall|k: int|
        0 <= k < steps.len() ==> step_done::<PTE, F>(
            states[k],
            states[k + 1],
            root,
            get_paddr,
            flags,
            #[trigger] steps[k],
        )
    &&& match r {
        Ok(_) => states.last() == after,
        Err(err) => step_stopped::<PTE, F>(
            states.last(),
            after,
            root,
            get_paddr,
            flags,
            allow_huge,
            end,
            cur,
            err,
        ),
    }
}

/// Before the first step the frames are those that the mapping began with.
pub proof fn lemma_region_start<PTE: GenericPTE, F: Fn(usize) -> usize>(
    before: Map<usize, Seq<u64>>,
    root: usize,
    get_paddr: F,
    flags: MappingFlags,
    allow_huge: bool,
    end: int,
    cur: usize,
)
    ensures
        region_made::<PTE, F>(
            seq![before],
            before,
            before,
            root,
            get_paddr,
            flags,
            allow_huge,
            end,
            cur,
            Seq::empty(),
            Ok(()),
        ),
{
    reveal(region_made);
}

/// One more page that was mapped adds its frames to those that the mapping
/// went through.
pub proof fn lemma_region_step<PTE: GenericPTE, F: Fn(usize) -> usize>(
    states: Seq<Map<usize, Seq<u64>>>,
    before: Map<usize, Seq<u64>>,
    then: Map<usize, Seq<u64>>,
    after: Map<usize, Seq<u64>>,
    root: usize,
    get_paddr: F,
    flags: MappingFlags,
    allow_huge: bool,
    end: int,
    cur: usize,
    steps: Seq<RegionStep>,
    step: RegionStep,
    paddr: usize,
)
    requires
        region_made::<PTE, F>(
            states,
            before,
            then,
            root,
            get_paddr,
            flags,
            allow_huge,
            end,
            cur,
            steps,
            Ok(()),
        ),
        get_paddr.ensures((step.vaddr,), paddr),
        map_outcome::<PTE>(
            then,
            after,
            root,
            step.vaddr,
            page_entry::<PTE>(paddr, step.size, flags),
            step.size,
            Ok(()),
        ),
    ensures
        region_made::<PTE, F>(
            states.push(after),
            before,
            after,
            root,
            get_paddr,
            flags,
            allow_huge,
            end,
            (step.vaddr + step.size.spec_bytes()) as usize,
            steps.push(step),
            Ok(()),
        ),
{
    reveal(region_made);
    reveal(step_done);
    assert(step_done::<PTE, F>(then, after, root, get_paddr, flags, step));
    let more = states.push(after);
    let all = steps.push(step);
    assert forall|k: int| 0 <= k < all.len() implies step_done::<PTE, F>(
        more[k],
        more[k + 1],
        root,
        get_paddr,
        flags,
        #[trigger] all[k],
    ) by {
        if k < steps.len() {
            assert(all[k] == steps[k]);
            assert(more[k] == states[k]);
            assert(more[k + 1] == states[k + 1]);
        } else {
            assert(more[k] == then);
        }
    }
}

/// A page that could not be mapped ends the frames that the mapping went
/// through.
pub proof fn lemma_region_stopped<PTE: GenericPTE, F: Fn(usize) -> usize>(
    states: Seq<Map<usize, Seq<u64>>>,
    before: Map<usize, Seq<u64>>,
    then: Map<usize, Seq<u64>>,
    after: Map<usize, Seq<u64>>,
    root: usize,
    get_paddr: F,
    flags: MappingFlags,
    allow_huge: bool,
    end: int,
    cur: usize,
    steps: Seq<RegionStep>,
    err: PagingError,
    paddr: usize,
)
    requires
        region_made::<PTE, F>(
            states,
            before,
            then,
            root,
            get_paddr,
            flags,
            allow_huge,
            end,
            cur,
            steps,
            Ok(()),
        ),
        get_paddr.ensures((cur,), paddr),
        map_outcome::<PTE>(
            then,
            after,
            root,
            cur,
            page_entry::<PTE>(
                paddr,
                spec_pick_page_size(allow_huge, cur, paddr, (end - cur) as usize),
                flags,
            ),
            spec_pick_page_size(allow_huge, cur, paddr, (end - cur) as usize),
            Err(err),
        ),
    ensures
        region_made::<PTE, F>(
            states,
            before,
            after,
            root,
            get_paddr,
            flags,
            allow_huge,
            end,
            cur,
            steps,
            Err(err),
        ),
{
    reveal(region_made);
    reveal(step_stopped);
    assert(only_unused_changed::<PTE>(then, then));
    assert(step_failed_at::<PTE, F>(
        then,
        then,
        after,
        root,
        get_paddr,
        flags,
        allow_huge,
        end,
        cur,
        err,
        paddr,
    ));
}

/// What mapping a range does. `steps` are the pages that were mapped, in
/// order, and `r` is the result.
///
/// A start or a size that is not a multiple of 4K is refused with
/// `NotAligned`, and nothing changes. Else the pages follow one another from
/// `vaddr`, each as [`step_mapped`] says. After a success they end at the end
/// of the range. After a failure they end at the page that could not be
/// mapped, of which [`step_failed`] holds, and the pages before it stay
/// mapped. Only unused descriptors change and no frame goes away. What the
/// frames are after the call is fixed by [`region_made`], for some frames
/// between the steps.
pub open spec fn map_region_outcome<PTE: GenericPTE, F: Fn(usize) -> usize>(
    before: Map<usize, Seq<u64>>,
    after: Map<usize, Seq<u64>>,
    root: usize,
    vaddr: usize,
    get_paddr: F,
    size: usize,
    flags: MappingFlags,
    allow_huge: bool,
    steps: Seq<RegionStep>,
    r: Result<(), PagingError>,
) -> bool {
    if vaddr % 0x1000 != 0 || size % 0x1000 != 0 {
        &&& steps.len() == 0
        &&& r == Err::<(), PagingError>(PagingError::NotAligned)
        &&& after == before
    } else {
        &&& only_unused_changed::<PTE>(before, after)
        &&& before.dom().subset_of(after.dom())
        &&& chained(steps, vaddr)
        &&& forall|k: int|
            0 <= k < steps.len() ==> step_mapped::<PTE, F>(
                after,
                root,
                get_paddr,
                flags,
                allow_huge,
                vaddr + size,
                #[trigger] steps[k],
            )
        &&& match r {
            Ok(_) => steps_end(steps, vaddr) == vaddr + size,
            Err(err) => {
                &&& steps_end(steps, vaddr) < vaddr + size
                &&& err != PagingError::NotAligned
                &&& step_failed::<PTE, F>(
                    before,
                    after,
                    root,
                    get_paddr,
                    flags,
                    allow_huge,
                    vaddr + size,
                    steps_end(steps, vaddr) as usize,
                    err,
                )
            },
        }
        &&& exists|states: Seq<Map<usize, Seq<u64>>>| #[trigger]
            region_made::<PTE, F>(
                states,
                before,
                after,
                root,
                get_paddr,
                flags,
                allow_huge,
                vaddr + size,
                steps_end(steps, vaddr) as usize,
                steps,
                r,
            )
    }
}

/// Maps a contiguous virtual memory region to a contiguous physical memory
/// region with the given mapping `flags`, and returns the pages that were
/// mapped with the result.
#[verifier::rlimit(50)]
pub fn map_region_pages<PTE: GenericPTE, H: PagingHandler, F: Fn(usize) -> usize>(
    handler: &mut H,
    root: usize,
    vaddr: usize,
    get_paddr: F,
    size: usize,
    flags: MappingFlags,
    allow_huge: bool,
    tables: &mut Ghost<Map<usize, usize>>,
) -> (r: (Vec<RegionStep>, Result<(), PagingError>))
    requires
        old(handler).inv(),
        PTE::spec_short(),
        vaddr + size <= usize::MAX,
        forall|v: usize| get_paddr.requires((v,)),
    ensures
        final(handler).inv(),
        region_owned::<PTE>(
            old(handler).frames(),
            final(handler).frames(),
            root,
            old(tables)@,
            final(tables)@,
            flags,
        ),
        map_region_outcome::<PTE, F>(
            old(handler).frames(),
            final(handler).frames(),
            root,
            vaddr,
            get_paddr,
            size,
            flags,
            allow_huge,
            r.0@,
            r.1,
        ),
{
    let mut steps: Vec<RegionStep> = Vec::new();
    if !PageSize::Size4K.is_aligned(vaddr) || !PageSize::Size4K.is_aligned(size) {
        return (steps, Err(PagingError::NotAligned));
    }
    let ghost f0 = handler.frames();
    let ghost t0 = tables@;
    let ghost end = vaddr + size;
    proof {
        assert(t0.dom() =~= t0.dom().union(f0.dom().difference(f0.dom())));
    }
    let mut cur: usize = vaddr;
    let mut remaining: usize = size;
    let ghost mut states: Seq<Map<usize, Seq<u64>>> = seq![f0];
    proof {
        assert(only_unused_changed::<PTE>(f0, f0));
        lemma_region_start::<PTE, F>(f0, root, get_paddr, flags, allow_huge, end, cur);
    }
    while remaining > 0
        invariant
            handler.inv(),
            PTE::spec_short(),
            region_made::<PTE, F>(
                states,
                f0,
                handler.frames(),
                root,
                get_paddr,
                flags,
                allow_huge,
                end,
                cur,
                steps@,
                Ok(()),
            ),
            f0 == old(handler).frames(),
            t0 == old(tables)@,
            region_owned::<PTE>(f0, handler.frames(), root, t0, tables@, flags),
            end == vaddr + size,
            end <= usize::MAX,
            cur + remaining == end,
            vaddr <= cur,
            vaddr % 0x1000 == 0,
            size % 0x1000 == 0,
            cur % 0x1000 == 0,
            remaining % 0x1000 == 0,
            forall|v: usize| get_paddr.requires((v,)),
            only_unused_changed::<PTE>(f0, handler.frames()),
            f0.dom().subset_of(handler.frames().dom()),
            chained(steps@, vaddr),
            steps_end(steps@, vaddr) == cur,
            forall|k: int|
                0 <= k < steps.len() ==> step_mapped::<PTE, F>(
                    handler.frames(),
                    root,
                    get_paddr,
                    flags,
                    allow_huge,
                    end,
                    #[trigger] steps@[k],
                ),
        decreases remaining,
    {
        let paddr: usize = get_paddr(cur);
        let page_size: PageSize = pick_page_size(allow_huge, cur, paddr, remaining);
        let bytes: usize = usize::from(page_size);
        let ghost f1 = handler.frames();
        let ghost t1 = tables@;
        let mapped = map_step::<PTE, H>(handler, root, cur, paddr, page_size, flags, tables);
        proof {
            let f2 = handler.frames();
            lemma_unused_changed_twice::<PTE>(f0, f1, f2);
            lemma_region_owned_step::<PTE>(
                f0,
                f1,
                f2,
                root,
                t0,
                t1,
                tables@,
                flags,
                paddr,
                page_size,
                mapped,
            );
            lemma_steps_kept::<PTE, F>(
                f1,
                f2,
                root,
                get_paddr,
                flags,
                allow_huge,
                end,
                steps@,
            );
        }
        match mapped {
            Ok(_) => {},
            Err(err) => {
                proof {
                    lemma_step_failed::<PTE, F>(
                        f0,
                        f1,
                        handler.frames(),
                        root,
                        get_paddr,
                        flags,
                        allow_huge,
                        end,
                        cur,
                        err,
                        paddr,
                    );
                    lemma_region_stopped::<PTE, F>(
                        states,
                        f0,
                        f1,
                        handler.frames(),
                        root,
                        get_paddr,
                        flags,
                        allow_huge,
                        end,
                        cur,
                        steps@,
                        err,
                        paddr,
                    );
                    assert(region_made::<PTE, F>(
                        states,
                        f0,
                        handler.frames(),
                        root,
                        get_paddr,
                        flags,
                        allow_huge,
                        vaddr + size,
                        steps_end(steps@, vaddr) as usize,
                        steps@,
                        Err(err),
                    ));
                }
                return (steps, Err(err));
            },
        }
        let ghost before_push = steps@;
        steps.push(RegionStep { vaddr: cur, size: page_size, edited: true });
        proof {
            let f2 = handler.frames();
            let s = RegionStep { vaddr: cur, size: page_size, edited: true };
            match mapped {
                Ok(unit) => {
                    assert(unit == ());
                },
                Err(_) => {},
            }
            assert(mapped == Ok::<(), PagingError>(()));
            lemma_region_step::<PTE, F>(
                states,
                f0,
                f1,
                f2,
                root,
                get_paddr,
                flags,
                allow_huge,
                end,
                cur,
                before_push,
                s,
                paddr,
            );
            states = states.push(f2);
            lemma_step_taken::<PTE, F>(
                f2,
                root,
                get_paddr,
                flags,
                allow_huge,
                end,
                s,
                paddr,
                remaining,
                mapped,
            );
            lemma_chained_push(before_push, s, vaddr);
            assert forall|k: int| 0 <= k < steps.len() implies step_mapped::<PTE, F>(
                f2,
                root,
                get_paddr,
                flags,
                allow_huge,
                end,
                #[trigger] steps@[k],
            ) by {
                if k < before_push.len() {
                    assert(steps@[k] == before_push[k]);
                }
            }
        }
        cur = cur + bytes;
        remaining = remaining - bytes;
    }
    assert(region_made::<PTE, F>(
        states,
        f0,
        handler.frames(),
        root,
        get_paddr,
        flags,
        allow_huge,
        vaddr + size,
        steps_end(steps@, vaddr) as usize,
        steps@,
        Ok(()),
    ));
    (steps, Ok(()))
}

/// Where table descriptors can point to all the frames of a state, they can
/// to all the frames of a state that holds no others.
pub proof fn lemma_fit_subset<PTE: GenericPTE>(
    fewer: Map<usize, Seq<u64>>,
    more: Map<usize, Seq<u64>>,
)
    requires
        fewer.dom().subset_of(more.dom()),
        frames_fit::<PTE>(more),
    ensures
        frames_fit::<PTE>(fewer),
{
    assert forall|p: usize| #[trigger] fewer.contains_key(p) implies PTE::spec_holds_table(p) by {
        assert(more.contains_key(p));
    }
}

/// Unmaps one page of a range.
fn unmap_step<PTE: GenericPTE, H: PagingHandler>(
    handler: &mut H,
    root: usize,
    vaddr: usize,
) -> (r: Result<(usize, PageSize), PagingError>)
    requires
        old(handler).inv(),
        PTE::spec_short(),
    ensures
        final(handler).inv(),
        final(handler).frames() == spec_unmap_frames::<PTE>(
            old(handler).frames(),
            root,
            vaddr,
        ),
        r == spec_unmap_result::<PTE>(old(handler).frames(), root, vaddr),
{
    reveal(spec_unmap_frames);
    reveal(spec_unmap_result);
    unmap_page::<PTE, H>(handler, root, vaddr)
}

/// Sets the permissions of one page of a range.
fn protect_step<PTE: GenericPTE, H: PagingHandler>(
    handler: &mut H,
    root: usize,
    vaddr: usize,
    flags: MappingFlags,
) -> (r: Result<PageSize, PagingError>)
    requires
        old(handler).inv(),
    ensures
        final(handler).inv(),
        final(handler).frames() == spec_protect_frames::<PTE>(
            old(handler).frames(),
            root,
            vaddr,
            flags,
        ),
        r == spec_protect_result::<PTE>(old(handler).frames(), root, vaddr),
        r is Err ==> final(handler).frames() == old(handler).frames(),
{
    reveal(spec_protect_frames);
    reveal(spec_protect_result);
    protect_page::<PTE, H>(handler, root, vaddr, flags)
}

/// What unmapping the range of `size` bytes at `vaddr` does, page by page.
///
/// The page at `vaddr` is unmapped first. Where that fails, the edit ends
/// with the error. Where the page does not start at `vaddr` or is longer
/// than the range, the edit ends with `NotAligned`, after the page was
/// unmapped. Else the edit goes on behind the page.
#[verifier::opaque]
pub open spec fn spec_unmap_region<PTE: GenericPTE>(
    frames: Map<usize, Seq<u64>>,
    root: usize,
    vaddr: usize,
    size: usize,
) -> RegionOutcome
    decreases size,
{
    if size == 0 {
        RegionOutcome { frames, steps: Seq::empty(), result: Ok(()) }
    } else {
        let unmapped = spec_unmap_frames::<PTE>(frames, root, vaddr);
        match spec_unmap_result::<PTE>(frames, root, vaddr) {
            Ok((_, page_size)) => {
                let step = RegionStep { vaddr, size: page_size, edited: true };
                if vaddr % page_size.spec_bytes() != 0 || page_size.spec_bytes() > size {
                    RegionOutcome {
                        frames: unmapped,
                        steps: seq![step],
                        result: Err(PagingError::NotAligned),
                    }
                } else {
                    let rest = spec_unmap_region::<PTE>(
                        unmapped,
                        root,
                        (vaddr + page_size.spec_bytes()) as usize,
                        (size - page_size.spec_bytes()) as usize,
                    );
                    RegionOutcome {
                        frames: rest.frames,
                        steps: seq![step] + rest.steps,
                        result: rest.result,
                    }
                }
            },
            Err(err) => RegionOutcome { frames: unmapped, steps: Seq::empty(), result: Err(err) },
        }
    }
}

/// The first step of unmapping a range that is not empty, case by case.
pub proof fn lemma_unmap_region_step<PTE: GenericPTE>(
    frames: Map<usize, Seq<u64>>,
    root: usize,
    vaddr: usize,
    size: usize,
)
    ensures
        size == 0 ==> spec_unmap_region::<PTE>(frames, root, vaddr, size)
            == (RegionOutcome { frames, steps: Seq::empty(), result: Ok(()) }),
        size > 0 ==> spec_unmap_region::<PTE>(frames, root, vaddr, size) == ({
            let unmapped = spec_unmap_frames::<PTE>(frames, root, vaddr);
            match spec_unmap_result::<PTE>(frames, root, vaddr) {
                Ok((_, page_size)) => {
                    let step = RegionStep { vaddr, size: page_size, edited: true };
                    if vaddr % page_size.spec_bytes() != 0 || page_size.spec_bytes() > size {
                        RegionOutcome {
                            frames: unmapped,
                            steps: seq![step],
                            result: Err(PagingError::NotAligned),
                        }
                    } else {
                        let rest = spec_unmap_region::<PTE>(
                            unmapped,
                            root,
                            (vaddr + page_size.spec_bytes()) as usize,
                            (size - page_size.spec_bytes()) as usize,
                        );
                        RegionOutcome {
                            frames: rest.frames,
                            steps: seq![step] + rest.steps,
                            result: rest.result,
                        }
                    }
                },
                Err(err) => RegionOutcome {
                    frames: unmapped,
                    steps: Seq::empty(),
                    result: Err(err),
                },
            }
        }),
{
    reveal_with_fuel(spec_unmap_region, 2);
}

/// What unmapping a range does. A start or a size that is not a multiple of
/// 4K is refused with `NotAligned`, and nothing changes. Else the range is
/// unmapped page by page as [`spec_unmap_region`] says.
pub open spec fn unmap_region_outcome<PTE: GenericPTE>(
    before: Map<usize, Seq<u64>>,
    root: usize,
    vaddr: usize,
    size: usize,
) -> RegionOutcome {
    if vaddr % 0x1000 != 0 || size % 0x1000 != 0 {
        RegionOutcome {
            frames: before,
            steps: Seq::empty(),
            result: Err(PagingError::NotAligned),
        }
    } else {
        spec_unmap_region::<PTE>(before, root, vaddr, size)
    }
}

/// Unmaps a contiguous virtual memory region, and returns the pages that
/// were unmapped with the result.
#[verifier::rlimit(50)]
pub fn unmap_region_pages<PTE: GenericPTE, H: PagingHandler>(
    handler: &mut H,
    root: usize,
    vaddr: usize,
    size: usize,
) -> (r: (Vec<RegionStep>, Result<(), PagingError>))
    requires
        old(handler).inv(),
        PTE::spec_short(),
        vaddr + size <= usize::MAX,
    ensures
        final(handler).inv(),
        unmap_region_outcome::<PTE>(old(handler).frames(), root, vaddr, size)
            == (RegionOutcome { frames: final(handler).frames(), steps: r.0@, result: r.1 }),
{
    let mut steps: Vec<RegionStep> = Vec::new();
    if !PageSize::Size4K.is_aligned(vaddr) || !PageSize::Size4K.is_aligned(size) {
        return (steps, Err(PagingError::NotAligned));
    }
    let ghost total = spec_unmap_region::<PTE>(handler.frames(), root, vaddr, size);
    let mut cur: usize = vaddr;
    let mut remaining: usize = size;
    proof {
        lemma_step_joined(steps@, RegionStep { vaddr, size: PageSize::Size4K, edited: false }, total.steps);
        assert(steps@ + total.steps =~= total.steps);
    }
    while remaining > 0
        invariant
            handler.inv(),
            PTE::spec_short(),
            vaddr % 0x1000 == 0,
            size % 0x1000 == 0,
            total == spec_unmap_region::<PTE>(old(handler).frames(), root, vaddr, size),
            cur + remaining <= usize::MAX,
            total.frames == spec_unmap_region::<PTE>(
                handler.frames(),
                root,
                cur,
                remaining,
            ).frames,
            total.steps == steps@ + spec_unmap_region::<PTE>(
                handler.frames(),
                root,
                cur,
                remaining,
            ).steps,
            total.result == spec_unmap_region::<PTE>(
                handler.frames(),
                root,
                cur,
                remaining,
            ).result,
        decreases remaining,
    {
        let ghost taken = steps@;
        proof {
            lemma_unmap_region_step::<PTE>(handler.frames(), root, cur, remaining);
        }
        let page_size: PageSize = match unmap_step::<PTE, H>(handler, root, cur) {
            Ok((_, page_size)) => page_size,
            Err(err) => {
                proof {
                    lemma_step_joined(taken, RegionStep { vaddr, size: PageSize::Size4K, edited: false }, taken);
                }
                return (steps, Err(err));
            },
        };
        let bytes: usize = usize::from(page_size);
        let ghost step = RegionStep { vaddr: cur, size: page_size, edited: true };
        steps.push(RegionStep { vaddr: cur, size: page_size, edited: true });
        if !page_size.is_aligned(cur) || bytes > remaining {
            proof {
                lemma_step_joined(taken, step, Seq::empty());
            }
            return (steps, Err(PagingError::NotAligned));
        }
        proof {
            lemma_step_joined(
                taken,
                step,
                spec_unmap_region::<PTE>(
                    handler.frames(),
                    root,
                    (cur + bytes) as usize,
                    (remaining - bytes) as usize,
                ).steps,
            );
        }
        cur = cur + bytes;
        remaining = remaining - bytes;
    }
    proof {
        lemma_unmap_region_step::<PTE>(handler.frames(), root, cur, remaining);
        lemma_step_joined(steps@, RegionStep { vaddr, size: PageSize::Size4K, edited: false }, steps@);
    }
    (steps, Ok(()))
}

/// What setting the permissions of the range of `size` bytes at `vaddr` to
/// `flags` does, page by page.
///
/// The page at `vaddr` is changed first. Where that fails, the edit ends
/// with the error. Where the page does not start at `vaddr` or is longer than the
/// range, the edit ends with `NotAligned`, after the page was changed. Else
/// the edit goes on behind the page.
#[verifier::opaque]
pub open spec fn spec_protect_region<PTE: GenericPTE>(
    frames: Map<usize, Seq<u64>>,
    root: usize,
    vaddr: usize,
    size: usize,
    flags: MappingFlags,
) -> RegionOutcome
    decreases size,
{
    if size == 0 {
        RegionOutcome { frames, steps: Seq::empty(), result: Ok(()) }
    } else {
        let changed = spec_protect_frames::<PTE>(frames, root, vaddr, flags);
        match spec_protect_result::<PTE>(frames, root, vaddr) {
            Ok(page_size) => {
                let step = RegionStep { vaddr, size: page_size, edited: true };
                if vaddr % page_size.spec_bytes() != 0 || page_size.spec_bytes() > size {
                    RegionOutcome {
                        frames: changed,
                        steps: seq![step],
                        result: Err(PagingError::NotAligned),
                    }
                } else {
                    let rest = spec_protect_region::<PTE>(
                        changed,
                        root,
                        (vaddr + page_size.spec_bytes()) as usize,
                        (size - page_size.spec_bytes()) as usize,
                        flags,
                    );
                    RegionOutcome {
                        frames: rest.frames,
                        steps: seq![step] + rest.steps,
                        result: rest.result,
                    }
                }
            },
            Err(err) => RegionOutcome { frames, steps: Seq::empty(), result: Err(err) },
        }
    }
}

/// The first step of setting the permissions of a range that is not empty,
/// case by case.
pub proof fn lemma_protect_region_step<PTE: GenericPTE>(
    frames: Map<usize, Seq<u64>>,
    root: usize,
    vaddr: usize,
    size: usize,
    flags: MappingFlags,
)
    ensures
        size == 0 ==> spec_protect_region::<PTE>(frames, root, vaddr, size, flags)
            == (RegionOutcome { frames, steps: Seq::empty(), result: Ok(()) }),
        size > 0 ==> spec_protect_region::<PTE>(frames, root, vaddr, size, flags) == ({
            let changed = spec_protect_frames::<PTE>(frames, root, vaddr, flags);
            match spec_protect_result::<PTE>(frames, root, vaddr) {
                Ok(page_size) => {
                    let step = RegionStep { vaddr, size: page_size, edited: true };
                    if vaddr % page_size.spec_bytes() != 0 || page_size.spec_bytes() > size {
                        RegionOutcome {
                            frames: changed,
                            steps: seq![step],
                            result: Err(PagingError::NotAligned),
                        }
                    } else {
                        let rest = spec_protect_region::<PTE>(
                            changed,
                            root,
                            (vaddr + page_size.spec_bytes()) as usize,
                            (size - page_size.spec_bytes()) as usize,
                            flags,
                        );
                        RegionOutcome {
                            frames: rest.frames,
                            steps: seq![step] + rest.steps,
                            result: rest.result,
                        }
                    }
                },
                Err(err) => RegionOutcome { frames, steps: Seq::empty(), result: Err(err) },
            }
        }),
{
    reveal_with_fuel(spec_protect_region, 2);
}

/// What setting the permissions of a range does. A start or a size that is
/// not a multiple of 4K is refused with `NotAligned`, and nothing changes.
/// Else the range is changed page by page as [`spec_protect_region`] says.
pub open spec fn protect_region_outcome<PTE: GenericPTE>(
    before: Map<usize, Seq<u64>>,
    root: usize,
    vaddr: usize,
    size: usize,
    flags: MappingFlags,
) -> RegionOutcome {
    if vaddr % 0x1000 != 0 || size % 0x1000 != 0 {
        RegionOutcome {
            frames: before,
            steps: Seq::empty(),
            result: Err(PagingError::NotAligned),
        }
    } else {
        spec_protect_region::<PTE>(before, root, vaddr, size, flags)
    }
}

/// Updates mapping flags of a contiguous virtual memory region, and returns
/// the pages that were changed with the result.
#[verifier::rlimit(50)]
pub fn protect_region_pages<PTE: GenericPTE, H: PagingHandler>(
    handler: &mut H,
    root: usize,
    vaddr: usize,
    size: usize,
    flags: MappingFlags,
) -> (r: (Vec<RegionStep>, Result<(), PagingError>))
    requires
        old(handler).inv(),
        vaddr + size <= usize::MAX,
    ensures
        final(handler).inv(),
        protect_region_outcome::<PTE>(old(handler).frames(), root, vaddr, size, flags)
            == (RegionOutcome { frames: final(handler).frames(), steps: r.0@, result: r.1 }),
{
    let mut steps: Vec<RegionStep> = Vec::new();
    if !PageSize::Size4K.is_aligned(vaddr) || !PageSize::Size4K.is_aligned(size) {
        return (steps, Err(PagingError::NotAligned));
    }
    let ghost total = spec_protect_region::<PTE>(
        handler.frames(),
        root,
        vaddr,
        size,
        flags,
    );
    let mut cur: usize = vaddr;
    let mut remaining: usize = size;
    proof {
        assert(steps@ + total.steps =~= total.steps);
    }
    while remaining > 0
        invariant
            handler.inv(),
            vaddr % 0x1000 == 0,
            size % 0x1000 == 0,
            cur % 0x1000 == 0,
            remaining % 0x1000 == 0,
            total == spec_protect_region::<PTE>(
                old(handler).frames(),
                root,
                vaddr,
                size,
                flags,
            ),
            cur + remaining <= usize::MAX,
            total.frames == spec_protect_region::<PTE>(
                handler.frames(),
                root,
                cur,
                remaining,
                flags,
            ).frames,
            total.steps == steps@ + spec_protect_region::<PTE>(
                handler.frames(),
                root,
                cur,
                remaining,
                flags,
            ).steps,
            total.result == spec_protect_region::<PTE>(
                handler.frames(),
                root,
                cur,
                remaining,
                flags,
            ).result,
        decreases remaining,
    {
        let ghost taken = steps@;
        proof {
            lemma_protect_region_step::<PTE>(
                handler.frames(),
                root,
                cur,
                remaining,
                flags,
            );
        }
        let bytes: usize = match protect_step::<PTE, H>(handler, root, cur, flags) {
            Ok(page_size) => {
                let bytes: usize = usize::from(page_size);
                let ghost step = RegionStep { vaddr: cur, size: page_size, edited: true };
                steps.push(RegionStep { vaddr: cur, size: page_size, edited: true });
                if !page_size.is_aligned(cur) || bytes > remaining {
                    proof {
                        lemma_step_joined(taken, step, Seq::empty());
                    }
                    return (steps, Err(PagingError::NotAligned));
                }
                proof {
                    lemma_step_joined(
                        taken,
                        step,
                        spec_protect_region::<PTE>(
                            handler.frames(),
                            root,
                            (cur + bytes) as usize,
                            (remaining - bytes) as usize,
                            flags,
                        ).steps,
                    );
                    crate::lemma_low_bits(cur, page_size);
                }
                bytes
            },
            Err(err) => {
                proof {
                    lemma_step_joined(
                        taken,
                        RegionStep { vaddr, size: PageSize::Size4K, edited: false },
                        taken,
                    );
                }
                return (steps, Err(err));
            },
        };
        cur = cur + bytes;
        remaining = remaining - bytes;
    }
    proof {
        lemma_protect_region_step::<PTE>(handler.frames(), root, cur, remaining, flags);
        lemma_step_joined(steps@, RegionStep { vaddr, size: PageSize::Size4K, edited: false }, steps@);
    }
    (steps, Ok(()))
}

/// The sizes of the steps of mapping a range add up to the size of the
/// range, when the mapping succeeds.
pub proof fn lemma_map_region_sum<PTE: GenericPTE, F: Fn(usize) -> usize>(
    before: Map<usize, Seq<u64>>,
    after: Map<usize, Seq<u64>>,
    root: usize,
    vaddr: usize,
    get_paddr: F,
    size: usize,
    flags: MappingFlags,
    allow_huge: bool,
    steps: Seq<RegionStep>,
)
    requires
        map_region_outcome::<PTE, F>(
            before,
            after,
            root,
            vaddr,
            get_paddr,
            size,
            flags,
            allow_huge,
            steps,
            Ok(()),
        ),
    ensures
        steps_bytes(steps) == size,
{
    lemma_steps_sum(steps, vaddr);
}

/// Why mapping a range stopped: unless memory ran out, the way to the page
/// at which it stopped is blocked with the error, or ends at a descriptor
/// that is in use and the error is `AlreadyMapped`, as long as table
/// descriptors can point to all the frames. The physical address that the
/// page was given is returned.
pub proof fn lemma_map_region_stops<PTE: GenericPTE, F: Fn(usize) -> usize>(
    before: Map<usize, Seq<u64>>,
    after: Map<usize, Seq<u64>>,
    root: usize,
    vaddr: usize,
    get_paddr: F,
    size: usize,
    flags: MappingFlags,
    allow_huge: bool,
    steps: Seq<RegionStep>,
    err: PagingError,
) -> (paddr: usize)
    requires
        vaddr % 0x1000 == 0,
        size % 0x1000 == 0,
        map_region_outcome::<PTE, F>(
            before,
            after,
            root,
            vaddr,
            get_paddr,
            size,
            flags,
            allow_huge,
            steps,
            Err(err),
        ),
        err != PagingError::NoMemory,
        frames_fit::<PTE>(after),
    ensures
        get_paddr.ensures((steps_end(steps, vaddr) as usize,), paddr),
        ({
            let cur = steps_end(steps, vaddr) as usize;
            let picked = spec_pick_page_size(allow_huge, cur, paddr, (vaddr + size - cur) as usize);
            match crate::walk32::target_slot::<PTE>(after, root, cur, picked) {
                Ok(Some(slot)) => err == PagingError::AlreadyMapped && !entry_at::<PTE>(
                    after,
                    slot.table,
                    slot.index,
                ).unwrap().spec_is_unused(),
                Ok(None) => false,
                Err(e) => err == e,
            }
        }),
{
    reveal(step_failed);
    let cur = steps_end(steps, vaddr) as usize;
    let end: int = vaddr + size;
    let (then, paddr) = choose|then: Map<usize, Seq<u64>>, paddr: usize|
        step_failed_at::<PTE, F>(
            before,
            then,
            after,
            root,
            get_paddr,
            flags,
            allow_huge,
            end,
            cur,
            err,
            paddr,
        );
    paddr
}

/// The steps of unmapping a range follow one another from its start, and
/// when the unmapping succeeds they end at its end: their sizes add up to
/// the size of the range.
pub proof fn lemma_unmap_region_sum<PTE: GenericPTE>(
    frames: Map<usize, Seq<u64>>,
    root: usize,
    vaddr: usize,
    size: usize,
)
    requires
        vaddr + size <= usize::MAX,
    ensures
        chained(spec_unmap_region::<PTE>(frames, root, vaddr, size).steps, vaddr),
        spec_unmap_region::<PTE>(frames, root, vaddr, size).result is Ok ==> {
            &&& steps_end(spec_unmap_region::<PTE>(frames, root, vaddr, size).steps, vaddr)
                == vaddr + size
            &&& steps_bytes(spec_unmap_region::<PTE>(frames, root, vaddr, size).steps)
                == size
        },
    decreases size,
{
    lemma_unmap_region_step::<PTE>(frames, root, vaddr, size);
    let out = spec_unmap_region::<PTE>(frames, root, vaddr, size);
    if size > 0 {
        match spec_unmap_result::<PTE>(frames, root, vaddr) {
            Ok((_, page_size)) => {
                let step = RegionStep { vaddr, size: page_size, edited: true };
                if vaddr % page_size.spec_bytes() != 0 || page_size.spec_bytes() > size {
                    assert(out.steps =~= seq![step]);
                } else {
                    let next = (vaddr + page_size.spec_bytes()) as usize;
                    let left = (size - page_size.spec_bytes()) as usize;
                    let unmapped = spec_unmap_frames::<PTE>(frames, root, vaddr);
                    lemma_unmap_region_sum::<PTE>(unmapped, root, next, left);
                    let rest = spec_unmap_region::<PTE>(unmapped, root, next, left);
                    lemma_chained_prepend(step, rest.steps, vaddr);
                }
            },
            Err(_) => {},
        }
    }
    lemma_steps_sum(out.steps, vaddr);
}

/// The steps of setting the permissions of a range follow one another from
/// its start, and when the edit succeeds they end at its end: their sizes
/// add up to the size of the range.
pub proof fn lemma_protect_region_sum<PTE: GenericPTE>(
    frames: Map<usize, Seq<u64>>,
    root: usize,
    vaddr: usize,
    size: usize,
    flags: MappingFlags,
)
    requires
        vaddr + size <= usize::MAX,
    ensures
        chained(spec_protect_region::<PTE>(frames, root, vaddr, size, flags).steps, vaddr),
        spec_protect_region::<PTE>(frames, root, vaddr, size, flags).result is Ok ==> {
            &&& steps_end(
                spec_protect_region::<PTE>(frames, root, vaddr, size, flags).steps,
                vaddr,
            ) == vaddr + size
            &&& steps_bytes(
                spec_protect_region::<PTE>(frames, root, vaddr, size, flags).steps,
            ) == size
        },
    decreases size,
{
    lemma_protect_region_step::<PTE>(frames, root, vaddr, size, flags);
    let out = spec_protect_region::<PTE>(frames, root, vaddr, size, flags);
    if size > 0 {
        match spec_protect_result::<PTE>(frames, root, vaddr) {
            Ok(page_size) => {
                let step = RegionStep { vaddr, size: page_size, edited: true };
                if vaddr % page_size.spec_bytes() != 0 || page_size.spec_bytes() > size {
                    assert(out.steps =~= seq![step]);
                } else {
                    let next = (vaddr + page_size.spec_bytes()) as usize;
                    let left = (size - page_size.spec_bytes()) as usize;
                    let changed = spec_protect_frames::<PTE>(frames, root, vaddr, flags);
                    lemma_protect_region_sum::<PTE>(changed, root, next, left, flags);
                    let rest = spec_protect_region::<PTE>(
                        changed,
                        root,
                        next,
                        left,
                        flags,
                    );
                    lemma_chained_prepend(step, rest.steps, vaddr);
                }
            },
            Err(_) => {},
        }
    }
    lemma_steps_sum(out.steps, vaddr);
}

} // verus!
