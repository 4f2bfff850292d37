//! Which table frames a tree of two levels owns.
//!
//! A tree owns the four frames of its table of the first level, and every
//! table of the second level that it made for a mapping. Each owned table of
//! the second level hangs at one descriptor of the first level, and every
//! descriptor of the first level that points to a table points to an owned
//! one. A tree in this state is well formed. Mapping, unmapping and changing
//! permissions keep it so, and destroying it frees exactly what it owns.

use vstd::prelude::*;
use crate::{PageSize, PagingError};
use crate::entry::{GenericPTE, MappingFlags};
use crate::handler::{frame_run, FRAME_SIZE};
use crate::region32::{
    lemma_protect_region_step, lemma_unmap_region_step, spec_protect_region, spec_unmap_region,
};
use crate::walk32::{
    protect_outcome, remap_outcome, spec_protect_frames, spec_protect_result,
    spec_unmap_frames, spec_unmap_result, unmap_outcome, frames_fit, entry_at, entry_frame,
    lemma_in_use, lemma_written, locate, write_slot, FRAME_ENTRIES, L1_ENTRY_COUNT,
    L2_ENTRY_COUNT,
};
use crate::walk64::{zero_words, Slot};

verus! {

/// The number of frames that the table of the first level takes.
pub const ROOT_FRAMES: usize = 4;

/// Whether a descriptor of the first level points to a table of the second
/// level: whether it is in use and maps no section.
pub open spec fn points_to_table<PTE: GenericPTE>(entry: PTE) -> bool {
    !entry.spec_is_unused() && !entry.spec_is_huge()
}

/// The tree at `root` is well formed: the frames of its table of the first
/// level are there, it owns the tables of `tables`, each of which hangs at
/// the descriptor of the first level with the index that `tables` gives for
/// it, and every descriptor of the first level that points to a table points
/// to one of them.
pub open spec fn tree_wf<PTE: GenericPTE>(
    frames: Map<usize, Seq<u64>>,
    root: usize,
    tables: Map<usize, usize>,
) -> bool {
    &&& PTE::spec_short()
    &&& root % FRAME_SIZE == 0
    &&& root + ROOT_FRAMES * FRAME_SIZE <= usize::MAX
    &&& forall|p: usize| #[trigger]
        frame_run(root, ROOT_FRAMES).contains(p) ==> frames.contains_key(p) && frames[p].len()
            == 512
    &&& forall|table: usize| #[trigger]
        tables.contains_key(table) ==> table_ok::<PTE>(frames, root, tables, table)
    &&& forall|index: usize|
        index < L1_ENTRY_COUNT && (#[trigger] entry_at::<PTE>(frames, root, index)) is Some
            && points_to_table(entry_at::<PTE>(frames, root, index).unwrap()) ==> {
            let table = entry_at::<PTE>(frames, root, index).unwrap().spec_paddr();
            &&& tables.contains_key(table)
            &&& tables[table] == index
        }
}

/// What holds of one owned table of the second level: its frame is there, is
/// none of the frames of the table of the first level, and hangs at the
/// descriptor of the first level that `tables` gives for it.
pub open spec fn table_ok<PTE: GenericPTE>(
    frames: Map<usize, Seq<u64>>,
    root: usize,
    tables: Map<usize, usize>,
    table: usize,
) -> bool {
    &&& frames.contains_key(table)
    &&& frames[table].len() == 512
    &&& table % FRAME_SIZE == 0
    &&& !frame_run(root, ROOT_FRAMES).contains(table)
    &&& tables[table] < L1_ENTRY_COUNT
    &&& entry_at::<PTE>(frames, root, tables[table]) is Some
    &&& points_to_table(entry_at::<PTE>(frames, root, tables[table]).unwrap())
    &&& entry_at::<PTE>(frames, root, tables[table]).unwrap().spec_paddr() == table
}

/// The frame of a descriptor of the table of the first level is one of the
/// four frames of that table, and the frame of one of the first 1024
/// descriptors of a table is the frame where the table starts.
pub proof fn lemma_entry_frames(root: usize, index: usize)
    requires
        root + ROOT_FRAMES * FRAME_SIZE <= usize::MAX,
        root % FRAME_SIZE == 0,
    ensures
        index < L1_ENTRY_COUNT ==> frame_run(root, ROOT_FRAMES).contains(
            entry_frame(root, index) as usize,
        ) && entry_frame(root, index) <= usize::MAX,
        index < FRAME_ENTRIES ==> entry_frame(root, index) == root,
{
}

/// A tree stays well formed when a descriptor of a table of the second
/// level is written, and when a descriptor of the first level that points
/// to no table is replaced by one that points to none.
pub proof fn lemma_written_wf<PTE: GenericPTE>(
    before: Map<usize, Seq<u64>>,
    root: usize,
    tables: Map<usize, usize>,
    slot: Slot,
    entry: PTE,
)
    requires
        tree_wf::<PTE>(before, root, tables),
        entry_at::<PTE>(before, slot.table, slot.index) is Some,
        (tables.contains_key(slot.table) && slot.index < FRAME_ENTRIES) || (slot.table == root
            && slot.index < L1_ENTRY_COUNT && !points_to_table(
            entry_at::<PTE>(before, slot.table, slot.index).unwrap(),
        ) && !points_to_table(entry)),
    ensures
        tree_wf::<PTE>(write_slot(before, slot, entry.spec_raw()), root, tables),
{
    let after = write_slot(before, slot, entry.spec_raw());
    lemma_written::<PTE>(before, slot, entry);
    assert forall|index: usize| index < L1_ENTRY_COUNT implies (#[trigger] entry_at::<PTE>(
        after,
        root,
        index,
    )) == if slot.table == root && index == slot.index {
        Some(entry)
    } else {
        entry_at::<PTE>(before, root, index)
    } by {
        lemma_entry_frames(root, index);
        if tables.contains_key(slot.table) && slot.index < FRAME_ENTRIES {
            assert(table_ok::<PTE>(before, root, tables, slot.table));
            assert(entry_frame(slot.table, slot.index) == slot.table);
        } else {
            lemma_entry_frames(root, slot.index);
        }
    }
    assert forall|table: usize| #[trigger] tables.contains_key(table) implies table_ok::<PTE>(
        after,
        root,
        tables,
        table,
    ) by {
        assert(table_ok::<PTE>(before, root, tables, table));
        assert(entry_at::<PTE>(after, root, tables[table]) == entry_at::<PTE>(
            before,
            root,
            tables[table],
        ));
    }
    assert forall|p: usize| #[trigger] frame_run(root, ROOT_FRAMES).contains(p)
        implies after.contains_key(p) && after[p].len() == 512 by {}
}

/// A tree stays well formed, with one more owned table, when a table of the
/// second level is made for an unused descriptor of the first level.
pub proof fn lemma_created_wf<PTE: GenericPTE>(
    before: Map<usize, Seq<u64>>,
    after: Map<usize, Seq<u64>>,
    root: usize,
    tables: Map<usize, usize>,
    index: usize,
    child: usize,
)
    requires
        tree_wf::<PTE>(before, root, tables),
        index < L1_ENTRY_COUNT,
        !before.contains_key(child),
        child != 0,
        child % FRAME_SIZE == 0,
        PTE::spec_holds_table(child),
        entry_at::<PTE>(before, root, index) is Some,
        entry_at::<PTE>(before, root, index).unwrap().spec_is_unused(),
        after == write_slot(
            before.insert(child, zero_words()),
            Slot { table: root, index },
            PTE::spec_new_table(child).spec_raw(),
        ),
    ensures
        tree_wf::<PTE>(after, root, tables.insert(child, index)),
        !tables.contains_key(child),
{
    let mid = before.insert(child, zero_words());
    let pointer = PTE::spec_new_table(child);
    let slot = Slot { table: root, index };
    let more = tables.insert(child, index);
    lemma_in_use::<PTE>();
    PTE::lemma_new_table(child);
    assert(!tables.contains_key(child)) by {
        if tables.contains_key(child) {
            assert(table_ok::<PTE>(before, root, tables, child));
        }
    }
    assert(!frame_run(root, ROOT_FRAMES).contains(child));
    assert forall|t: usize, i: usize| #[trigger]
        entry_at::<PTE>(before, t, i) is Some implies entry_at::<PTE>(mid, t, i) == entry_at::<
        PTE,
    >(before, t, i) by {}
    lemma_entry_frames(root, index);
    assert(entry_at::<PTE>(mid, root, index) is Some);
    lemma_written::<PTE>(mid, slot, pointer);
    assert forall|i: usize| i < L1_ENTRY_COUNT implies (#[trigger] entry_at::<PTE>(
        after,
        root,
        i,
    )) == if i == index {
        Some(pointer)
    } else {
        entry_at::<PTE>(before, root, i)
    } by {
        lemma_entry_frames(root, i);
        assert(entry_at::<PTE>(before, root, i) is Some);
    }
    assert forall|table: usize| #[trigger] more.contains_key(table) implies table_ok::<PTE>(
        after,
        root,
        more,
        table,
    ) by {
        if table != child {
            assert(table_ok::<PTE>(before, root, tables, table));
            assert(entry_at::<PTE>(after, root, tables[table]) == entry_at::<PTE>(
                before,
                root,
                tables[table],
            ));
        }
    }
    assert forall|p: usize| #[trigger] frame_run(root, ROOT_FRAMES).contains(p)
        implies after.contains_key(p) && after[p].len() == 512 by {
        assert(before.contains_key(p));
    }
}

/// In a well formed tree the walk for an address ends at a descriptor of the
/// first level that maps a section, or at one of the first 256 descriptors
/// of an owned table of the second level.
pub proof fn lemma_located_owned<PTE: GenericPTE>(
    frames: Map<usize, Seq<u64>>,
    root: usize,
    tables: Map<usize, usize>,
    vaddr: usize,
)
    requires
        tree_wf::<PTE>(frames, root, tables),
        locate::<PTE>(frames, root, vaddr) is Ok,
    ensures
        ({
            let (slot, size) = locate::<PTE>(frames, root, vaddr).unwrap();
            &&& size == PageSize::Size1M ==> slot.table == root && slot.index < L1_ENTRY_COUNT
                && !points_to_table(entry_at::<PTE>(frames, slot.table, slot.index).unwrap())
            &&& size != PageSize::Size1M ==> size == PageSize::Size4K && tables.contains_key(
                slot.table,
            ) && slot.index < L2_ENTRY_COUNT
        }),
{
    let x: u64 = vaddr as u64;
    assert((x >> 20) & 0xfff < 4096 && (x >> 12) & 0xff < 256) by (bit_vector);
}

/// The frames after the descriptor that translates `vaddr` was replaced by
/// `entry`, where the walk finds one.
pub open spec fn replaced<PTE: GenericPTE>(
    frames: Map<usize, Seq<u64>>,
    root: usize,
    vaddr: usize,
    entry: PTE,
) -> Map<usize, Seq<u64>> {
    match locate::<PTE>(frames, root, vaddr) {
        Ok((slot, _)) => write_slot(frames, slot, entry.spec_raw()),
        Err(_) => frames,
    }
}

/// A well formed tree stays well formed when the descriptor that translates
/// an address is replaced by one that points to no table, or by any
/// descriptor where it maps a page of 4K.
pub proof fn lemma_replaced_wf<PTE: GenericPTE>(
    frames: Map<usize, Seq<u64>>,
    root: usize,
    tables: Map<usize, usize>,
    vaddr: usize,
    entry: PTE,
)
    requires
        tree_wf::<PTE>(frames, root, tables),
        match locate::<PTE>(frames, root, vaddr) {
            Ok((_, size)) => size == PageSize::Size4K || !points_to_table(entry),
            Err(_) => true,
        },
    ensures
        tree_wf::<PTE>(replaced(frames, root, vaddr, entry), root, tables),
{
    if locate::<PTE>(frames, root, vaddr) is Ok {
        let (slot, size) = locate::<PTE>(frames, root, vaddr).unwrap();
        lemma_located_owned::<PTE>(frames, root, tables, vaddr);
        lemma_written_wf::<PTE>(frames, root, tables, slot, entry);
    }
}

/// Unmapping keeps a tree well formed.
pub proof fn lemma_unmap_wf<PTE: GenericPTE>(
    before: Map<usize, Seq<u64>>,
    after: Map<usize, Seq<u64>>,
    root: usize,
    tables: Map<usize, usize>,
    vaddr: usize,
    r: Result<(usize, PageSize), PagingError>,
)
    requires
        tree_wf::<PTE>(before, root, tables),
        unmap_outcome::<PTE>(before, after, root, vaddr, r),
    ensures
        tree_wf::<PTE>(after, root, tables),
{
    let zero = PTE::spec_from_raw(0);
    lemma_in_use::<PTE>();
    PTE::lemma_zero();
    lemma_replaced_wf::<PTE>(before, root, tables, vaddr, zero);
}

/// Changing the permissions to some permission keeps a tree well formed.
pub proof fn lemma_protect_wf<PTE: GenericPTE>(
    before: Map<usize, Seq<u64>>,
    after: Map<usize, Seq<u64>>,
    root: usize,
    tables: Map<usize, usize>,
    vaddr: usize,
    flags: MappingFlags,
    r: Result<PageSize, PagingError>,
)
    requires
        tree_wf::<PTE>(before, root, tables),
        !flags.spec_is_empty(),
        protect_outcome::<PTE>(before, after, root, vaddr, flags, r),
    ensures
        tree_wf::<PTE>(after, root, tables),
{
    if locate::<PTE>(before, root, vaddr) is Ok {
        let (slot, size) = locate::<PTE>(before, root, vaddr).unwrap();
        let entry = entry_at::<PTE>(before, slot.table, slot.index).unwrap();
        if !entry.spec_is_unused() {
            let changed = PTE::spec_new_page(entry.spec_paddr(), flags, size.spec_is_huge());
            PTE::lemma_new_page(entry.spec_paddr(), flags, size.spec_is_huge());
            lemma_replaced_wf::<PTE>(before, root, tables, vaddr, changed);
        }
    }
}

/// Remapping with some permission keeps a tree well formed.
pub proof fn lemma_remap_wf<PTE: GenericPTE>(
    before: Map<usize, Seq<u64>>,
    after: Map<usize, Seq<u64>>,
    root: usize,
    tables: Map<usize, usize>,
    vaddr: usize,
    paddr: usize,
    flags: MappingFlags,
    r: Result<PageSize, PagingError>,
)
    requires
        tree_wf::<PTE>(before, root, tables),
        !flags.spec_is_empty(),
        remap_outcome::<PTE>(before, after, root, vaddr, paddr, flags, r),
    ensures
        tree_wf::<PTE>(after, root, tables),
{
    if locate::<PTE>(before, root, vaddr) is Ok {
        let (slot, size) = locate::<PTE>(before, root, vaddr).unwrap();
        let changed = PTE::spec_new_page(paddr, flags, size.spec_is_huge());
        PTE::lemma_new_page(paddr, flags, size.spec_is_huge());
        lemma_replaced_wf::<PTE>(before, root, tables, vaddr, changed);
    }
}

/// Unmapping a range keeps a tree well formed.
pub proof fn lemma_unmap_region_wf<PTE: GenericPTE>(
    frames: Map<usize, Seq<u64>>,
    root: usize,
    tables: Map<usize, usize>,
    vaddr: usize,
    size: usize,
)
    requires
        tree_wf::<PTE>(frames, root, tables),
    ensures
        tree_wf::<PTE>(spec_unmap_region::<PTE>(frames, root, vaddr, size).frames, root, tables),
    decreases size,
{
    lemma_unmap_region_step::<PTE>(frames, root, vaddr, size);
    if size > 0 {
        reveal(spec_unmap_frames);
        reveal(spec_unmap_result);
        let unmapped = spec_unmap_frames::<PTE>(frames, root, vaddr);
        let zero = PTE::spec_from_raw(0);
        lemma_in_use::<PTE>();
        PTE::lemma_zero();
        lemma_replaced_wf::<PTE>(frames, root, tables, vaddr, zero);
        assert(unmapped == replaced(frames, root, vaddr, zero) || unmapped == frames);
        match spec_unmap_result::<PTE>(frames, root, vaddr) {
            Ok((_, page_size)) => {
                if !(vaddr % page_size.spec_bytes() != 0 || page_size.spec_bytes() > size) {
                    lemma_unmap_region_wf::<PTE>(
                        unmapped,
                        root,
                        tables,
                        (vaddr + page_size.spec_bytes()) as usize,
                        (size - page_size.spec_bytes()) as usize,
                    );
                }
            },
            Err(_) => {},
        }
    }
}

/// Setting the permissions of a range to some permission keeps a tree well
/// formed.
pub proof fn lemma_protect_region_wf<PTE: GenericPTE>(
    frames: Map<usize, Seq<u64>>,
    root: usize,
    tables: Map<usize, usize>,
    vaddr: usize,
    size: usize,
    flags: MappingFlags,
)
    requires
        tree_wf::<PTE>(frames, root, tables),
        !flags.spec_is_empty(),
    ensures
        tree_wf::<PTE>(
            spec_protect_region::<PTE>(frames, root, vaddr, size, flags).frames,
            root,
            tables,
        ),
    decreases size,
{
    lemma_protect_region_step::<PTE>(frames, root, vaddr, size, flags);
    if size > 0 {
        reveal(spec_protect_frames);
        reveal(spec_protect_result);
        let changed = spec_protect_frames::<PTE>(frames, root, vaddr, flags);
        match spec_protect_result::<PTE>(frames, root, vaddr) {
            Ok(page_size) => {
                let (slot, found) = locate::<PTE>(frames, root, vaddr).unwrap();
                let entry = entry_at::<PTE>(frames, slot.table, slot.index).unwrap();
                let written = PTE::spec_new_page(
                    entry.spec_paddr(),
                    flags,
                    page_size.spec_is_huge(),
                );
                PTE::lemma_new_page(entry.spec_paddr(), flags, page_size.spec_is_huge());
                lemma_replaced_wf::<PTE>(frames, root, tables, vaddr, written);
                assert(changed == replaced(frames, root, vaddr, written));
                if !(vaddr % page_size.spec_bytes() != 0 || page_size.spec_bytes() > size) {
                    lemma_protect_region_wf::<PTE>(
                        changed,
                        root,
                        tables,
                        (vaddr + page_size.spec_bytes()) as usize,
                        (size - page_size.spec_bytes()) as usize,
                        flags,
                    );
                }
            },
            Err(_) => {},
        }
    }
}

/// The owned tables of the second level that hang at descriptors before
/// `upto`.
pub open spec fn hanging_before(tables: Map<usize, usize>, upto: usize) -> Set<usize> {
    Set::new(|table: usize| tables.contains_key(table) && tables[table] < upto)
}

/// The owned tables that hang at descriptors before `index + 1` are those
/// before `index` and the table that the descriptor at `index` points to,
/// if it points to one.
pub proof fn lemma_hanging_next<PTE: GenericPTE>(
    frames: Map<usize, Seq<u64>>,
    root: usize,
    tables: Map<usize, usize>,
    index: usize,
)
    requires
        tree_wf::<PTE>(frames, root, tables),
        index < L1_ENTRY_COUNT,
    ensures
        entry_at::<PTE>(frames, root, index) is Some,
        hanging_before(tables, (index + 1) as usize) =~= if points_to_table(
            entry_at::<PTE>(frames, root, index).unwrap(),
        ) {
            hanging_before(tables, index).insert(
                entry_at::<PTE>(frames, root, index).unwrap().spec_paddr(),
            )
        } else {
            hanging_before(tables, index)
        },
        points_to_table(entry_at::<PTE>(frames, root, index).unwrap()) ==> !frame_run(
            root,
            ROOT_FRAMES,
        ).contains(entry_at::<PTE>(frames, root, index).unwrap().spec_paddr()),
        hanging_before(tables, 0) =~= Set::<usize>::empty(),
        hanging_before(tables, L1_ENTRY_COUNT) =~= tables.dom(),
{
    lemma_entry_frames(root, index);
    assert(frame_run(root, ROOT_FRAMES).contains(entry_frame(root, index) as usize));
    let entry = entry_at::<PTE>(frames, root, index).unwrap();
    let next = hanging_before(tables, (index + 1) as usize);
    let before = hanging_before(tables, index);
    assert forall|t: usize| next.contains(t) == (before.contains(t) || (points_to_table(entry)
        && t == entry.spec_paddr())) by {
        if tables.contains_key(t) {
            assert(table_ok::<PTE>(frames, root, tables, t));
        }
    }
    if points_to_table(entry) {
        assert(table_ok::<PTE>(frames, root, tables, entry.spec_paddr()));
    }
    assert forall|t: usize| hanging_before(tables, L1_ENTRY_COUNT).contains(t)
        == tables.contains_key(t) by {
        if tables.contains_key(t) {
            assert(table_ok::<PTE>(frames, root, tables, t));
        }
    }
}

/// What the creating walk of a tree of two levels does to the tables that
/// the tree owns: `kept` are the owned tables before and `now` after.
///
/// If the tree was well formed, and table descriptors can point to all the
/// frames, the tree is well formed and owns what it owned and the frame that
/// was made, and the walk ends at a descriptor of the first level for a
/// section, and at one of the first 256 descriptors of an owned table of the
/// second level for a page.
pub open spec fn walk_owned<PTE: GenericPTE>(
    before: Map<usize, Seq<u64>>,
    after: Map<usize, Seq<u64>>,
    root: usize,
    kept: Map<usize, usize>,
    now: Map<usize, usize>,
    size: PageSize,
    r: Result<Slot, PagingError>,
) -> bool {
    tree_wf::<PTE>(before, root, kept) && crate::walk32::frames_fit::<PTE>(after) ==> {
        &&& tree_wf::<PTE>(after, root, now)
        &&& now.dom() =~= kept.dom().union(after.dom().difference(before.dom()))
        &&& match r {
            Ok(slot) => if size == PageSize::Size1M {
                slot.table == root && slot.index < L1_ENTRY_COUNT
            } else {
                now.contains_key(slot.table) && slot.index < L2_ENTRY_COUNT
            },
            Err(_) => true,
        }
    }
}

/// What mapping a page does to the tables that a tree of two levels owns:
/// `kept` are the owned tables before and `now` after.
///
/// A well formed tree stays well formed and owns what it owned and the
/// frame that was made, as long as table descriptors can point to all the
/// frames, when the mapping fails, when it maps a page of 4K, and when it
/// maps a section with a descriptor that points to no table.
pub open spec fn map_owned<PTE: GenericPTE>(
    before: Map<usize, Seq<u64>>,
    after: Map<usize, Seq<u64>>,
    root: usize,
    kept: Map<usize, usize>,
    now: Map<usize, usize>,
    page: PTE,
    size: PageSize,
    r: Result<(), PagingError>,
) -> bool {
    tree_wf::<PTE>(before, root, kept) && crate::walk32::frames_fit::<PTE>(after) && (r is Err
        || size == PageSize::Size4K || !points_to_table(page)) ==> {
        &&& tree_wf::<PTE>(after, root, now)
        &&& now.dom() =~= kept.dom().union(after.dom().difference(before.dom()))
    }
}

} // verus!
