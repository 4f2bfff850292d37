//! Which table frames a tree of three or four levels owns.
//!
//! A tree owns its root table and every table that it made for a mapping.
//! Each owned table but the root hangs at one slot of an owned table of the
//! level above, and every slot of an owned table that points to a table
//! points to an owned one, unless the slot is one that the root table has on
//! loan from another tree. A tree in this state is well formed. Mapping,
//! unmapping and changing permissions keep it so, and destroying it frees
//! exactly the tables that it owns.

use vstd::prelude::*;
use crate::{PageSize, PagingError};
use crate::entry::{GenericPTE, MappingFlags};
use crate::region64::{
    lemma_protect_region_step, lemma_unmap_region_step, spec_protect_region, spec_unmap_region,
};
use crate::walk64::{
    spec_query, map_outcome, protect_outcome, remap_outcome, spec_protect_frames,
    spec_protect_result, spec_unmap_frames, spec_unmap_result, unmap_outcome, child_table,
    create_step, entry_at, lemma_in_use, locate, spec_next_table, spec_p1_index, spec_p2_index,
    spec_p3_index, spec_p4_index, table_created, target_slot, top_table, write_slot, Slot,
    ENTRY_COUNT,
};

verus! {

/// Where an owned table hangs: its level, counted from the root at zero,
/// and the owned table and the index in it of the descriptor that points to
/// it. For the root the last two mean nothing.
pub struct TableNode {
    /// The level of the table.
    pub level: nat,
    /// The table of the level above that points to this one.
    pub parent: usize,
    /// The index of the descriptor that points to this table.
    pub index: usize,
}

/// The index that the root table of a tree of `levels` levels has for
/// `vaddr`.
pub open spec fn spec_root_index(vaddr: usize, levels: usize) -> usize {
    if levels == 3 {
        spec_p3_index(vaddr)
    } else {
        spec_p4_index(vaddr)
    }
}

/// Whether the slot at `index` of `table` is one that the root table has on
/// loan.
pub open spec fn on_loan(root: usize, borrowed: Set<usize>, table: usize, index: usize) -> bool {
    table == root && borrowed.contains(index)
}

/// What holds of one owned table: its frame is there and a table descriptor
/// can point to it, its level is one of the tree's, and unless it is the
/// root it hangs at a slot of an owned table of the level above that is not
/// on loan.
pub open spec fn node_ok<PTE: GenericPTE>(
    frames: Map<usize, Seq<u64>>,
    root: usize,
    levels: usize,
    borrowed: Set<usize>,
    nodes: Map<usize, TableNode>,
    table: usize,
) -> bool {
    let node = nodes[table];
    &&& frames.contains_key(table)
    &&& PTE::spec_holds_table(table)
    &&& node.level < levels
    &&& table != root ==> {
        &&& nodes.contains_key(node.parent)
        &&& node.level == nodes[node.parent].level + 1
        &&& node.index < ENTRY_COUNT
        &&& child_table::<PTE>(frames, node.parent, node.index) == Ok::<usize, PagingError>(table)
        &&& !on_loan(root, borrowed, node.parent, node.index)
    }
}

/// The tree at `root` is well formed: it owns the tables of `nodes`, and
/// they hang together as a tree.
pub open spec fn tree_wf<PTE: GenericPTE>(
    frames: Map<usize, Seq<u64>>,
    root: usize,
    levels: usize,
    borrowed: Set<usize>,
    nodes: Map<usize, TableNode>,
) -> bool {
    &&& levels == 3 || levels == 4
    &&& nodes.contains_key(root)
    &&& nodes[root].level == 0
    &&& forall|table: usize| #[trigger]
        nodes.contains_key(table) ==> node_ok::<PTE>(frames, root, levels, borrowed, nodes, table)
    &&& forall|table: usize, index: usize|
        nodes.contains_key(table) && index < ENTRY_COUNT && nodes[table].level + 1 < levels
            && !on_loan(root, borrowed, table, index) && (#[trigger] child_table::<PTE>(
            frames,
            table,
            index,
        )) is Ok ==> {
            let child = child_table::<PTE>(frames, table, index).unwrap();
            &&& nodes.contains_key(child)
            &&& nodes[child] == (TableNode { level: nodes[table].level + 1, parent: table, index })
        }
}

/// The owned tables after a table was made at `slot`: the new table is owned
/// if it hangs at a slot of an owned table above the last level that is not
/// on loan.
pub open spec fn grown(
    root: usize,
    levels: usize,
    borrowed: Set<usize>,
    nodes: Map<usize, TableNode>,
    slot: Slot,
    child: usize,
) -> Map<usize, TableNode> {
    if nodes.contains_key(slot.table) && nodes[slot.table].level + 1 < levels && !on_loan(
        root,
        borrowed,
        slot.table,
        slot.index,
    ) {
        nodes.insert(
            child,
            TableNode {
                level: nodes[slot.table].level + 1,
                parent: slot.table,
                index: slot.index,
            },
        )
    } else {
        nodes
    }
}

/// A tree stays well formed when a table is made at an unused slot.
pub proof fn lemma_created_wf<PTE: GenericPTE>(
    before: Map<usize, Seq<u64>>,
    after: Map<usize, Seq<u64>>,
    root: usize,
    levels: usize,
    borrowed: Set<usize>,
    nodes: Map<usize, TableNode>,
    slot: Slot,
    child: usize,
)
    requires
        tree_wf::<PTE>(before, root, levels, borrowed, nodes),
        table_created::<PTE>(before, after, slot, child),
        create_step::<PTE>(before, slot.table, slot.index) == Ok::<Option<usize>, PagingError>(
            None,
        ),
        slot.index < ENTRY_COUNT,
        child != 0,
        PTE::spec_holds_table(child),
    ensures
        tree_wf::<PTE>(
            after,
            root,
            levels,
            borrowed,
            grown(root, levels, borrowed, nodes, slot, child),
        ),
        !nodes.contains_key(child),
{
    let more = grown(root, levels, borrowed, nodes, slot, child);
    lemma_in_use::<PTE>();
    PTE::lemma_zero();
    PTE::lemma_raw(PTE::spec_from_raw(0));
    let pointer = PTE::spec_new_table(child);
    PTE::lemma_raw(pointer);
    PTE::lemma_new_table(child);
    assert(!nodes.contains_key(child)) by {
        if nodes.contains_key(child) {
            assert(node_ok::<PTE>(before, root, levels, borrowed, nodes, child));
        }
    }
    assert forall|t: usize, i: usize| #[trigger]
        child_table::<PTE>(after, t, i) == if t == child {
            if i < ENTRY_COUNT {
                Err::<usize, PagingError>(PagingError::NotMapped)
            } else {
                child_table::<PTE>(after, t, i)
            }
        } else if t == slot.table && i == slot.index {
            Ok::<usize, PagingError>(child)
        } else {
            child_table::<PTE>(before, t, i)
        } by {
        if t != child && entry_at::<PTE>(before, t, i) is Some && t == slot.table && i
            != slot.index {
            assert(after[t][i as int] == before[t][i as int]);
        }
    }
    assert forall|table: usize| #[trigger] more.contains_key(table) implies node_ok::<PTE>(
        after,
        root,
        levels,
        borrowed,
        more,
        table,
    ) by {
        if table != child {
            assert(node_ok::<PTE>(before, root, levels, borrowed, nodes, table));
            if table != root {
                let node = nodes[table];
                assert(child_table::<PTE>(before, node.parent, node.index) is Ok);
                assert(node_ok::<PTE>(before, root, levels, borrowed, nodes, node.parent));
            }
        } else {
            assert(node_ok::<PTE>(before, root, levels, borrowed, nodes, slot.table));
        }
    }
    assert forall|table: usize, index: usize|
        more.contains_key(table) && index < ENTRY_COUNT && more[table].level + 1 < levels
            && !on_loan(root, borrowed, table, index) && (#[trigger] child_table::<PTE>(
            after,
            table,
            index,
        )) is Ok implies {
        let c = child_table::<PTE>(after, table, index).unwrap();
        &&& more.contains_key(c)
        &&& more[c] == (TableNode { level: more[table].level + 1, parent: table, index })
    } by {
        if table != child && !(table == slot.table && index == slot.index) {
            assert(child_table::<PTE>(before, table, index) is Ok);
        }
    }
}

/// A tree stays well formed when a word is written that holds no pointer to
/// a table, at a slot that held no pointer to a table, or at a slot of a
/// table of the last level, of a table that the tree does not own, or on
/// loan.
pub proof fn lemma_word_written_wf<PTE: GenericPTE>(
    before: Map<usize, Seq<u64>>,
    root: usize,
    levels: usize,
    borrowed: Set<usize>,
    nodes: Map<usize, TableNode>,
    slot: Slot,
    word: u64,
)
    requires
        tree_wf::<PTE>(before, root, levels, borrowed, nodes),
        entry_at::<PTE>(before, slot.table, slot.index) is Some,
        !nodes.contains_key(slot.table) || nodes[slot.table].level + 1 >= levels || on_loan(
            root,
            borrowed,
            slot.table,
            slot.index,
        ) || (child_table::<PTE>(before, slot.table, slot.index) is Err && spec_next_table(
            PTE::spec_from_raw(word),
        ) is Err),
    ensures
        tree_wf::<PTE>(write_slot(before, slot, word), root, levels, borrowed, nodes),
{
    let after = write_slot(before, slot, word);
    assert forall|t: usize, i: usize| #[trigger]
        child_table::<PTE>(after, t, i) == if t == slot.table && i == slot.index {
            spec_next_table(PTE::spec_from_raw(word))
        } else {
            child_table::<PTE>(before, t, i)
        } by {
        if entry_at::<PTE>(before, t, i) is Some && t == slot.table && i != slot.index {
            assert(after[t][i as int] == before[t][i as int]);
        }
    }
    assert forall|table: usize| #[trigger] nodes.contains_key(table) implies node_ok::<PTE>(
        after,
        root,
        levels,
        borrowed,
        nodes,
        table,
    ) by {
        assert(node_ok::<PTE>(before, root, levels, borrowed, nodes, table));
        if table != root {
            let node = nodes[table];
            assert(child_table::<PTE>(before, node.parent, node.index) is Ok);
            assert(node_ok::<PTE>(before, root, levels, borrowed, nodes, node.parent));
        }
    }
    assert forall|table: usize, index: usize|
        nodes.contains_key(table) && index < ENTRY_COUNT && nodes[table].level + 1 < levels
            && !on_loan(root, borrowed, table, index) && (#[trigger] child_table::<PTE>(
            after,
            table,
            index,
        )) is Ok implies {
        let c = child_table::<PTE>(after, table, index).unwrap();
        &&& nodes.contains_key(c)
        &&& nodes[c] == (TableNode { level: nodes[table].level + 1, parent: table, index })
    } by {
        if !(table == slot.table && index == slot.index) {
            assert(child_table::<PTE>(before, table, index) is Ok);
        }
    }
}

/// A tree stays well formed when a descriptor is written that is no pointer
/// to a table, at a slot that held no pointer to a table, or at a slot of a
/// table of the last level, of a table that the tree does not own, or on
/// loan.
pub proof fn lemma_written_wf<PTE: GenericPTE>(
    before: Map<usize, Seq<u64>>,
    root: usize,
    levels: usize,
    borrowed: Set<usize>,
    nodes: Map<usize, TableNode>,
    slot: Slot,
    entry: PTE,
)
    requires
        tree_wf::<PTE>(before, root, levels, borrowed, nodes),
        entry_at::<PTE>(before, slot.table, slot.index) is Some,
        !nodes.contains_key(slot.table) || nodes[slot.table].level + 1 >= levels || on_loan(
            root,
            borrowed,
            slot.table,
            slot.index,
        ) || (child_table::<PTE>(before, slot.table, slot.index) is Err && spec_next_table(
            entry,
        ) is Err),
    ensures
        tree_wf::<PTE>(
            write_slot(before, slot, entry.spec_raw()),
            root,
            levels,
            borrowed,
            nodes,
        ),
{
    PTE::lemma_raw(entry);
    lemma_word_written_wf::<PTE>(before, root, levels, borrowed, nodes, slot, entry.spec_raw());
}

/// The level of the table that holds the descriptor of a page of `size`.
pub open spec fn level_of(size: PageSize, levels: usize) -> nat {
    match size {
        PageSize::Size1G => (levels - 3) as nat,
        PageSize::Size2M => (levels - 2) as nat,
        _ => (levels - 1) as nat,
    }
}

/// In a well formed tree the walk for an address whose slot of the root
/// table is not on loan ends in an owned table of the level of the page, at
/// a descriptor that is no pointer to a table unless it is at the last
/// level.
pub proof fn lemma_located_owned<PTE: GenericPTE>(
    frames: Map<usize, Seq<u64>>,
    root: usize,
    levels: usize,
    borrowed: Set<usize>,
    nodes: Map<usize, TableNode>,
    vaddr: usize,
)
    requires
        tree_wf::<PTE>(frames, root, levels, borrowed, nodes),
        !borrowed.contains(spec_root_index(vaddr, levels)),
        locate::<PTE>(frames, root, levels, vaddr) is Ok,
    ensures
        ({
            let (slot, size) = locate::<PTE>(frames, root, levels, vaddr).unwrap();
            &&& size != PageSize::Size1M
            &&& slot.index < ENTRY_COUNT
            &&& nodes.contains_key(slot.table)
            &&& nodes[slot.table].level == level_of(size, levels)
            &&& size != PageSize::Size4K ==> child_table::<PTE>(frames, slot.table, slot.index) is Err
            &&& size == PageSize::Size1G && levels == 3 ==> slot.table == root
        }),
{
    lemma_indices();
    let i4 = spec_p4_index(vaddr);
    let i3 = spec_p3_index(vaddr);
    let i2 = spec_p2_index(vaddr);
    let i1 = spec_p1_index(vaddr);
    let p3 = top_table::<PTE>(frames, root, levels, vaddr).unwrap();
    if levels == 4 {
        assert(child_table::<PTE>(frames, root, i4) is Ok);
    }
    assert(nodes.contains_key(p3));
    let e3 = entry_at::<PTE>(frames, p3, i3).unwrap();
    if !e3.spec_is_huge() {
        assert(child_table::<PTE>(frames, p3, i3) is Ok);
        let p2 = spec_next_table(e3).unwrap();
        assert(nodes.contains_key(p2));
        let e2 = entry_at::<PTE>(frames, p2, i2).unwrap();
        if !e2.spec_is_huge() {
            assert(child_table::<PTE>(frames, p2, i2) is Ok);
            let p1 = spec_next_table(e2).unwrap();
            assert(nodes.contains_key(p1));
        }
    }
}

/// The frames after the descriptor that translates `vaddr` was replaced by
/// `entry`, where the walk finds one.
pub open spec fn replaced<PTE: GenericPTE>(
    frames: Map<usize, Seq<u64>>,
    root: usize,
    levels: usize,
    vaddr: usize,
    entry: PTE,
) -> Map<usize, Seq<u64>> {
    match locate::<PTE>(frames, root, levels, vaddr) {
        Ok((slot, _)) => write_slot(frames, slot, entry.spec_raw()),
        Err(_) => frames,
    }
}

/// A well formed tree stays well formed when the descriptor that translates
/// an address is replaced by one that is no pointer to a table, or by any
/// descriptor where it maps a page of 4K, as long as the slot of the root
/// table for the address is not on loan.
pub proof fn lemma_replaced_wf<PTE: GenericPTE>(
    frames: Map<usize, Seq<u64>>,
    root: usize,
    levels: usize,
    borrowed: Set<usize>,
    nodes: Map<usize, TableNode>,
    vaddr: usize,
    entry: PTE,
)
    requires
        tree_wf::<PTE>(frames, root, levels, borrowed, nodes),
        !borrowed.contains(spec_root_index(vaddr, levels)),
        match locate::<PTE>(frames, root, levels, vaddr) {
            Ok((_, size)) => size == PageSize::Size4K || spec_next_table(entry) is Err,
            Err(_) => true,
        },
    ensures
        tree_wf::<PTE>(replaced(frames, root, levels, vaddr, entry), root, levels, borrowed, nodes),
{
    if locate::<PTE>(frames, root, levels, vaddr) is Ok {
        let (slot, size) = locate::<PTE>(frames, root, levels, vaddr).unwrap();
        lemma_located_owned::<PTE>(frames, root, levels, borrowed, nodes, vaddr);
        lemma_written_wf::<PTE>(frames, root, levels, borrowed, nodes, slot, entry);
    }
}

/// Unmapping keeps a tree well formed, at an address whose slot of the root
/// table is not on loan.
pub proof fn lemma_unmap_wf<PTE: GenericPTE>(
    before: Map<usize, Seq<u64>>,
    after: Map<usize, Seq<u64>>,
    root: usize,
    levels: usize,
    borrowed: Set<usize>,
    nodes: Map<usize, TableNode>,
    vaddr: usize,
    r: Result<(usize, MappingFlags, PageSize), PagingError>,
)
    requires
        tree_wf::<PTE>(before, root, levels, borrowed, nodes),
        !borrowed.contains(spec_root_index(vaddr, levels)),
        unmap_outcome::<PTE>(before, after, root, levels, vaddr, r),
    ensures
        tree_wf::<PTE>(after, root, levels, borrowed, nodes),
{
    let zero = PTE::spec_from_raw(0);
    PTE::lemma_zero();
    lemma_replaced_wf::<PTE>(before, root, levels, borrowed, nodes, vaddr, zero);
}

/// Changing the permissions to some permission keeps a tree well formed, at
/// an address whose slot of the root table is not on loan.
pub proof fn lemma_protect_wf<PTE: GenericPTE>(
    before: Map<usize, Seq<u64>>,
    after: Map<usize, Seq<u64>>,
    root: usize,
    levels: usize,
    borrowed: Set<usize>,
    nodes: Map<usize, TableNode>,
    vaddr: usize,
    flags: MappingFlags,
    r: Result<PageSize, PagingError>,
)
    requires
        tree_wf::<PTE>(before, root, levels, borrowed, nodes),
        !borrowed.contains(spec_root_index(vaddr, levels)),
        !flags.spec_is_empty(),
        protect_outcome::<PTE>(before, after, root, levels, vaddr, flags, r),
    ensures
        tree_wf::<PTE>(after, root, levels, borrowed, nodes),
{
    if locate::<PTE>(before, root, levels, vaddr) is Ok {
        let (slot, size) = locate::<PTE>(before, root, levels, vaddr).unwrap();
        let entry = entry_at::<PTE>(before, slot.table, slot.index).unwrap();
        if entry.spec_is_present() {
            let changed = entry.spec_set_flags(flags, size.spec_is_huge());
            PTE::lemma_set_flags(entry, flags, size.spec_is_huge());
            lemma_located_owned::<PTE>(before, root, levels, borrowed, nodes, vaddr);
            lemma_replaced_wf::<PTE>(before, root, levels, borrowed, nodes, vaddr, changed);
        }
    }
}

/// Remapping with some permission keeps a tree well formed, at an address
/// whose slot of the root table is not on loan.
pub proof fn lemma_remap_wf<PTE: GenericPTE>(
    before: Map<usize, Seq<u64>>,
    after: Map<usize, Seq<u64>>,
    root: usize,
    levels: usize,
    borrowed: Set<usize>,
    nodes: Map<usize, TableNode>,
    vaddr: usize,
    paddr: usize,
    flags: MappingFlags,
    r: Result<PageSize, PagingError>,
)
    requires
        tree_wf::<PTE>(before, root, levels, borrowed, nodes),
        !borrowed.contains(spec_root_index(vaddr, levels)),
        !flags.spec_is_empty(),
        remap_outcome::<PTE>(before, after, root, levels, vaddr, paddr, flags, r),
    ensures
        tree_wf::<PTE>(after, root, levels, borrowed, nodes),
{
    if locate::<PTE>(before, root, levels, vaddr) is Ok {
        let (slot, size) = locate::<PTE>(before, root, levels, vaddr).unwrap();
        let entry = entry_at::<PTE>(before, slot.table, slot.index).unwrap();
        let moved = entry.spec_set_paddr(paddr);
        let changed = moved.spec_set_flags(flags, size.spec_is_huge());
        PTE::lemma_set_flags(moved, flags, size.spec_is_huge());
        lemma_located_owned::<PTE>(before, root, levels, borrowed, nodes, vaddr);
        lemma_replaced_wf::<PTE>(before, root, levels, borrowed, nodes, vaddr, changed);
    }
}

/// No slot of the root table that serves an address from `vaddr` to before
/// `vaddr + size` is on loan.
pub open spec fn range_not_on_loan(
    borrowed: Set<usize>,
    levels: usize,
    vaddr: usize,
    size: usize,
) -> bool {
    forall|v: usize|
        vaddr <= v < vaddr + size ==> !borrowed.contains(#[trigger] spec_root_index(v, levels))
}

/// Unmapping a range keeps a tree well formed, where no slot of the root
/// table that serves the range is on loan.
pub proof fn lemma_unmap_region_wf<PTE: GenericPTE>(
    frames: Map<usize, Seq<u64>>,
    root: usize,
    levels: usize,
    borrowed: Set<usize>,
    nodes: Map<usize, TableNode>,
    vaddr: usize,
    size: usize,
)
    requires
        tree_wf::<PTE>(frames, root, levels, borrowed, nodes),
        range_not_on_loan(borrowed, levels, vaddr, size),
        vaddr + size <= usize::MAX,
    ensures
        tree_wf::<PTE>(
            spec_unmap_region::<PTE>(frames, root, levels, vaddr, size).frames,
            root,
            levels,
            borrowed,
            nodes,
        ),
    decreases size,
{
    lemma_unmap_region_step::<PTE>(frames, root, levels, vaddr, size);
    if size > 0 {
        reveal(spec_unmap_frames);
        reveal(spec_unmap_result);
        let unmapped = spec_unmap_frames::<PTE>(frames, root, levels, vaddr);
        let zero = PTE::spec_from_raw(0);
        PTE::lemma_zero();
        assert(!borrowed.contains(spec_root_index(vaddr, levels)));
        lemma_replaced_wf::<PTE>(frames, root, levels, borrowed, nodes, vaddr, zero);
        assert(unmapped == replaced(frames, root, levels, vaddr, zero));
        match spec_unmap_result::<PTE>(frames, root, levels, vaddr) {
            Ok((_, _, page_size)) => {
                if !(vaddr % page_size.spec_bytes() != 0 || page_size.spec_bytes() > size) {
                    let next = (vaddr + page_size.spec_bytes()) as usize;
                    let left = (size - page_size.spec_bytes()) as usize;
                    assert(range_not_on_loan(borrowed, levels, next, left));
                    lemma_unmap_region_wf::<PTE>(
                        unmapped,
                        root,
                        levels,
                        borrowed,
                        nodes,
                        next,
                        left,
                    );
                }
            },
            Err(_) => {},
        }
    }
}

/// Setting the permissions of a range to some permission keeps a tree well
/// formed, where no slot of the root table that serves the range is on loan.
pub proof fn lemma_protect_region_wf<PTE: GenericPTE>(
    frames: Map<usize, Seq<u64>>,
    root: usize,
    levels: usize,
    borrowed: Set<usize>,
    nodes: Map<usize, TableNode>,
    vaddr: usize,
    size: usize,
    flags: MappingFlags,
)
    requires
        tree_wf::<PTE>(frames, root, levels, borrowed, nodes),
        range_not_on_loan(borrowed, levels, vaddr, size),
        vaddr + size <= usize::MAX,
        !flags.spec_is_empty(),
    ensures
        tree_wf::<PTE>(
            spec_protect_region::<PTE>(frames, root, levels, vaddr, size, flags).frames,
            root,
            levels,
            borrowed,
            nodes,
        ),
    decreases size,
{
    lemma_protect_region_step::<PTE>(frames, root, levels, vaddr, size, flags);
    if size > 0 {
        reveal(spec_protect_frames);
        reveal(spec_protect_result);
        let changed = spec_protect_frames::<PTE>(frames, root, levels, vaddr, flags);
        assert(!borrowed.contains(spec_root_index(vaddr, levels)));
        match spec_protect_result::<PTE>(frames, root, levels, vaddr) {
            Ok(page_size) => {
                let (slot, size_found) = locate::<PTE>(frames, root, levels, vaddr).unwrap();
                let entry = entry_at::<PTE>(frames, slot.table, slot.index).unwrap();
                let written = entry.spec_set_flags(flags, page_size.spec_is_huge());
                PTE::lemma_set_flags(entry, flags, page_size.spec_is_huge());
                lemma_replaced_wf::<PTE>(frames, root, levels, borrowed, nodes, vaddr, written);
                assert(changed == replaced(frames, root, levels, vaddr, written));
                if !(vaddr % page_size.spec_bytes() != 0 || page_size.spec_bytes() > size) {
                    let next = (vaddr + page_size.spec_bytes()) as usize;
                    let left = (size - page_size.spec_bytes()) as usize;
                    assert(range_not_on_loan(borrowed, levels, next, left));
                    lemma_protect_region_wf::<PTE>(
                        changed,
                        root,
                        levels,
                        borrowed,
                        nodes,
                        next,
                        left,
                        flags,
                    );
                }
            },
            Err(err) => {
                if err == PagingError::NotMapped && size >= 0x1000 {
                    let next = (vaddr + 0x1000) as usize;
                    let left = (size - 0x1000) as usize;
                    assert(range_not_on_loan(borrowed, levels, next, left));
                    lemma_protect_region_wf::<PTE>(
                        frames,
                        root,
                        levels,
                        borrowed,
                        nodes,
                        next,
                        left,
                        flags,
                    );
                }
            },
        }
    }
}

/// The owned table that lies `up` levels above `table` on the way to the
/// root.
pub open spec fn ancestor(nodes: Map<usize, TableNode>, table: usize, up: nat) -> usize
    decreases up,
{
    if up == 0 {
        table
    } else {
        ancestor(nodes, nodes[table].parent, (up - 1) as nat)
    }
}

/// Whether the owned table `table` is `top` or lies below it.
pub open spec fn under(nodes: Map<usize, TableNode>, table: usize, top: usize) -> bool {
    &&& nodes.contains_key(table)
    &&& nodes.contains_key(top)
    &&& nodes[table].level >= nodes[top].level
    &&& ancestor(nodes, table, (nodes[table].level - nodes[top].level) as nat) == top
}

/// The owned tables from `top` downwards.
pub open spec fn subtree(nodes: Map<usize, TableNode>, top: usize) -> Set<usize> {
    Set::new(|table: usize| under(nodes, table, top))
}

/// The index of the slot of `top` that a table below `top` hangs under.
pub open spec fn branch(nodes: Map<usize, TableNode>, table: usize, top: usize) -> usize {
    nodes[ancestor(nodes, table, (nodes[table].level - nodes[top].level - 1) as nat)].index
}

/// The owned tables that hang under the slots of `top` before `upto`.
pub open spec fn below(nodes: Map<usize, TableNode>, top: usize, upto: usize) -> Set<usize> {
    Set::new(
        |table: usize| under(nodes, table, top) && table != top && branch(nodes, table, top) < upto,
    )
}

/// Every owned table from `top` downwards is in `frames` as it is in
/// `snapshot`.
pub open spec fn intact(
    frames: Map<usize, Seq<u64>>,
    snapshot: Map<usize, Seq<u64>>,
    nodes: Map<usize, TableNode>,
    top: usize,
) -> bool {
    forall|table: usize| #[trigger]
        under(nodes, table, top) ==> frames.contains_key(table) && frames[table]
            == snapshot[table]
}

/// Each owned table but the root hangs at an owned table of the level above,
/// and the root alone is at level zero.
pub open spec fn typed(nodes: Map<usize, TableNode>, root: usize) -> bool {
    &&& nodes.contains_key(root)
    &&& nodes[root].level == 0
    &&& forall|table: usize|
        #[trigger] nodes.contains_key(table) && table != root ==> nodes.contains_key(
            nodes[table].parent,
        ) && nodes[table].level == nodes[nodes[table].parent].level + 1
}

/// The owned tables of a well formed tree are typed.
pub proof fn lemma_typed<PTE: GenericPTE>(
    frames: Map<usize, Seq<u64>>,
    root: usize,
    levels: usize,
    borrowed: Set<usize>,
    nodes: Map<usize, TableNode>,
)
    requires
        tree_wf::<PTE>(frames, root, levels, borrowed, nodes),
    ensures
        typed(nodes, root),
{
    assert forall|table: usize| #[trigger] nodes.contains_key(table) && table
        != root implies nodes.contains_key(nodes[table].parent) && nodes[table].level
        == nodes[nodes[table].parent].level + 1 by {
        assert(node_ok::<PTE>(frames, root, levels, borrowed, nodes, table));
    }
}

/// The table that lies `up` levels above an owned table is owned and at the
/// level that is `up` less, and one level further up lies its parent.
pub proof fn lemma_ancestor(nodes: Map<usize, TableNode>, root: usize, table: usize, up: nat)
    requires
        typed(nodes, root),
        nodes.contains_key(table),
        up <= nodes[table].level,
    ensures
        nodes.contains_key(ancestor(nodes, table, up)),
        nodes[ancestor(nodes, table, up)].level == nodes[table].level - up,
        up < nodes[table].level ==> ancestor(nodes, table, up + 1) == nodes[ancestor(
            nodes,
            table,
            up,
        )].parent,
    decreases up,
{
    if up > 0 {
        lemma_ancestor(nodes, root, nodes[table].parent, (up - 1) as nat);
    }
    if up < nodes[table].level {
        reveal_with_fuel(ancestor, 2);
        if up > 0 {
            assert(ancestor(nodes, table, up + 1) == ancestor(nodes, nodes[table].parent, up));
        }
    }
}

/// What is under a child of `top` is under `top`, at the slot of the child.
pub proof fn lemma_under_child(
    nodes: Map<usize, TableNode>,
    root: usize,
    table: usize,
    child: usize,
    top: usize,
)
    requires
        typed(nodes, root),
        under(nodes, table, child),
        nodes.contains_key(top),
        child != root,
        nodes[child].parent == top,
    ensures
        under(nodes, table, top),
        table != top,
        branch(nodes, table, top) == nodes[child].index,
        ancestor(nodes, table, (nodes[table].level - nodes[top].level - 1) as nat) == child,
{
    let up = (nodes[table].level - nodes[child].level) as nat;
    lemma_ancestor(nodes, root, table, up);
}

/// What is below `top` is under the child of `top` at its slot.
pub proof fn lemma_under_branch(
    nodes: Map<usize, TableNode>,
    root: usize,
    table: usize,
    top: usize,
)
    requires
        typed(nodes, root),
        under(nodes, table, top),
        table != top,
    ensures
        ({
            let child = ancestor(
                nodes,
                table,
                (nodes[table].level - nodes[top].level - 1) as nat,
            );
            &&& nodes[table].level > nodes[top].level
            &&& nodes.contains_key(child)
            &&& child != root
            &&& nodes[child].parent == top
            &&& nodes[child].level == nodes[top].level + 1
            &&& under(nodes, table, child)
        }),
{
    if nodes[table].level == nodes[top].level {
        assert(ancestor(nodes, table, 0) == table);
    }
    let up = (nodes[table].level - nodes[top].level - 1) as nat;
    lemma_ancestor(nodes, root, table, up);
}

/// The tables that hang under the slots of an owned table before `index + 1`
/// are those before `index` and those under the table that the slot at
/// `index` points to, if it points to one and is not on loan.
pub proof fn lemma_below_next<PTE: GenericPTE>(
    frames: Map<usize, Seq<u64>>,
    root: usize,
    levels: usize,
    borrowed: Set<usize>,
    nodes: Map<usize, TableNode>,
    top: usize,
    index: usize,
)
    requires
        tree_wf::<PTE>(frames, root, levels, borrowed, nodes),
        nodes.contains_key(top),
        index < ENTRY_COUNT,
    ensures
        nodes[top].level + 1 < levels && !on_loan(root, borrowed, top, index) && child_table::<PTE>(
            frames,
            top,
            index,
        ) is Ok ==> {
            let child = child_table::<PTE>(frames, top, index).unwrap();
            &&& nodes.contains_key(child)
            &&& nodes[child].level == nodes[top].level + 1
            &&& child != root
            &&& below(nodes, top, (index + 1) as usize) =~= below(nodes, top, index).union(
                subtree(nodes, child),
            )
            &&& below(nodes, top, index).disjoint(subtree(nodes, child))
            &&& !subtree(nodes, child).contains(top)
        },
        !(nodes[top].level + 1 < levels && !on_loan(root, borrowed, top, index) && child_table::<
            PTE,
        >(frames, top, index) is Ok) ==> below(nodes, top, (index + 1) as usize) =~= below(
            nodes,
            top,
            index,
        ),
{
    lemma_typed::<PTE>(frames, root, levels, borrowed, nodes);
    let next = below(nodes, top, (index + 1) as usize);
    let before = below(nodes, top, index);
    if nodes[top].level + 1 < levels && !on_loan(root, borrowed, top, index) && child_table::<PTE>(
        frames,
        top,
        index,
    ) is Ok {
        let child = child_table::<PTE>(frames, top, index).unwrap();
        assert forall|t: usize| next.contains(t) == (before.contains(t) || subtree(
            nodes,
            child,
        ).contains(t)) by {
            if under(nodes, t, child) {
                lemma_under_child(nodes, root, t, child, top);
            }
            if under(nodes, t, top) && t != top {
                lemma_under_branch(nodes, root, t, top);
                let a = ancestor(nodes, t, (nodes[t].level - nodes[top].level - 1) as nat);
                assert(node_ok::<PTE>(frames, root, levels, borrowed, nodes, a));
            }
        }
        assert forall|t: usize| !(before.contains(t) && subtree(nodes, child).contains(t)) by {
            if under(nodes, t, child) {
                lemma_under_child(nodes, root, t, child, top);
            }
        }
        if under(nodes, top, child) {
            lemma_under_child(nodes, root, top, child, top);
        }
    } else {
        assert forall|t: usize| next.contains(t) == before.contains(t) by {
            if under(nodes, t, top) && t != top {
                lemma_under_branch(nodes, root, t, top);
                let a = ancestor(nodes, t, (nodes[t].level - nodes[top].level - 1) as nat);
                assert(node_ok::<PTE>(frames, root, levels, borrowed, nodes, a));
            }
        }
    }
}

/// The tables from an owned table downwards are the table itself and those
/// under its slots; a table of the last level has none under it.
pub proof fn lemma_below_all<PTE: GenericPTE>(
    frames: Map<usize, Seq<u64>>,
    root: usize,
    levels: usize,
    borrowed: Set<usize>,
    nodes: Map<usize, TableNode>,
    top: usize,
)
    requires
        tree_wf::<PTE>(frames, root, levels, borrowed, nodes),
        nodes.contains_key(top),
    ensures
        subtree(nodes, top) =~= below(nodes, top, ENTRY_COUNT).insert(top),
        below(nodes, top, 0) =~= Set::<usize>::empty(),
        nodes[top].level + 1 >= levels ==> subtree(nodes, top) =~= set![top],
        top == root ==> subtree(nodes, top) =~= nodes.dom(),
{
    lemma_typed::<PTE>(frames, root, levels, borrowed, nodes);
    assert(ancestor(nodes, top, 0) == top);
    assert forall|t: usize| subtree(nodes, top).contains(t) == (below(
        nodes,
        top,
        ENTRY_COUNT,
    ).contains(t) || t == top) by {
        if under(nodes, t, top) && t != top {
            lemma_under_branch(nodes, root, t, top);
            let a = ancestor(nodes, t, (nodes[t].level - nodes[top].level - 1) as nat);
            assert(node_ok::<PTE>(frames, root, levels, borrowed, nodes, a));
        }
    }
    if nodes[top].level + 1 >= levels {
        assert forall|t: usize| subtree(nodes, top).contains(t) == (t == top) by {
            if under(nodes, t, top) && t != top {
                lemma_under_branch(nodes, root, t, top);
                assert(node_ok::<PTE>(frames, root, levels, borrowed, nodes, t));
            }
        }
    }
    if top == root {
        assert forall|t: usize| subtree(nodes, top).contains(t) == nodes.contains_key(t) by {
            if nodes.contains_key(t) {
                lemma_ancestor(nodes, root, t, nodes[t].level);
                let a = ancestor(nodes, t, nodes[t].level);
                if a != root {
                    assert(nodes.contains_key(a) && a != root);
                }
            }
        }
    }
}

/// The owned tables that hang under the slot at `index` of the root table.
pub open spec fn hanging<PTE: GenericPTE>(
    frames: Map<usize, Seq<u64>>,
    root: usize,
    borrowed: Set<usize>,
    nodes: Map<usize, TableNode>,
    index: usize,
) -> Set<usize> {
    if !borrowed.contains(index) && child_table::<PTE>(frames, root, index) is Ok {
        subtree(nodes, child_table::<PTE>(frames, root, index).unwrap())
    } else {
        Set::empty()
    }
}

/// A well formed tree stays well formed when a slot of its root table goes
/// on loan and the tables that hung under it go away.
pub proof fn lemma_lend_wf<PTE: GenericPTE>(
    frames: Map<usize, Seq<u64>>,
    root: usize,
    levels: usize,
    borrowed: Set<usize>,
    nodes: Map<usize, TableNode>,
    index: usize,
)
    requires
        tree_wf::<PTE>(frames, root, levels, borrowed, nodes),
        index < ENTRY_COUNT,
    ensures
        tree_wf::<PTE>(
            frames.remove_keys(hanging::<PTE>(frames, root, borrowed, nodes, index)),
            root,
            levels,
            borrowed.insert(index),
            nodes.remove_keys(hanging::<PTE>(frames, root, borrowed, nodes, index)),
        ),
        !hanging::<PTE>(frames, root, borrowed, nodes, index).contains(root),
        hanging::<PTE>(frames, root, borrowed, nodes, index).subset_of(nodes.dom()),
{
    lemma_typed::<PTE>(frames, root, levels, borrowed, nodes);
    let gone = hanging::<PTE>(frames, root, borrowed, nodes, index);
    let left = frames.remove_keys(gone);
    let kept = nodes.remove_keys(gone);
    let lent = borrowed.insert(index);
    if !borrowed.contains(index) && child_table::<PTE>(frames, root, index) is Ok {
        let child = child_table::<PTE>(frames, root, index).unwrap();
        assert(nodes.contains_key(child) && nodes[child].level == 1);
        assert forall|t: usize| #[trigger] kept.contains_key(t) implies node_ok::<PTE>(
            left,
            root,
            levels,
            lent,
            kept,
            t,
        ) by {
            assert(node_ok::<PTE>(frames, root, levels, borrowed, nodes, t));
            if t != root {
                let p = nodes[t].parent;
                if under(nodes, p, child) {
                    reveal_with_fuel(ancestor, 2);
                    assert(under(nodes, t, child));
                }
                assert(node_ok::<PTE>(frames, root, levels, borrowed, nodes, p));
                if p == root && nodes[t].index == index {
                    assert(t == child);
                    assert(ancestor(nodes, child, 0) == child);
                }
            }
        }
        assert forall|t: usize, i: usize|
            kept.contains_key(t) && i < ENTRY_COUNT && kept[t].level + 1 < levels && !on_loan(
                root,
                lent,
                t,
                i,
            ) && (#[trigger] child_table::<PTE>(left, t, i)) is Ok implies {
            let c = child_table::<PTE>(left, t, i).unwrap();
            &&& kept.contains_key(c)
            &&& kept[c] == (TableNode { level: kept[t].level + 1, parent: t, index: i })
        } by {
            assert(node_ok::<PTE>(frames, root, levels, borrowed, nodes, t));
            assert(child_table::<PTE>(frames, t, i) is Ok);
            let c = child_table::<PTE>(frames, t, i).unwrap();
            if under(nodes, c, child) {
                if c == child {
                    assert(nodes[c].parent == root);
                } else {
                    lemma_under_branch(nodes, root, c, child);
                    let up = (nodes[c].level - nodes[child].level) as nat;
                    reveal_with_fuel(ancestor, 2);
                    assert(ancestor(nodes, c, up) == ancestor(nodes, t, (up - 1) as nat));
                    assert(under(nodes, t, child));
                }
            }
        }
    } else {
        assert(left =~= frames);
        assert(kept =~= nodes);
        assert forall|t: usize| #[trigger] kept.contains_key(t) implies node_ok::<PTE>(
            left,
            root,
            levels,
            lent,
            kept,
            t,
        ) by {
            assert(node_ok::<PTE>(frames, root, levels, borrowed, nodes, t));
            if t != root && nodes[t].parent == root && nodes[t].index == index {
                assert(child_table::<PTE>(frames, root, index) is Ok);
            }
        }
    }
}

/// What copying one descriptor of the root table of another tree does to a
/// well formed tree: `after` are the frames once the tables that hung under
/// the slot at `index` are freed and the word `word` is written there, if
/// one is written.
pub proof fn lemma_copied_wf<PTE: GenericPTE>(
    before: Map<usize, Seq<u64>>,
    freed: Map<usize, Seq<u64>>,
    after: Map<usize, Seq<u64>>,
    root: usize,
    levels: usize,
    borrowed: Set<usize>,
    nodes: Map<usize, TableNode>,
    index: usize,
    word: Option<u64>,
)
    requires
        tree_wf::<PTE>(before, root, levels, borrowed, nodes),
        index < ENTRY_COUNT,
        before[root].len() == ENTRY_COUNT,
        freed == before.remove_keys(hanging::<PTE>(before, root, borrowed, nodes, index)),
        after == match word {
            Some(w) => write_slot(freed, Slot { table: root, index }, w),
            None => freed,
        },
    ensures
        tree_wf::<PTE>(
            after,
            root,
            levels,
            borrowed.insert(index),
            nodes.remove_keys(hanging::<PTE>(before, root, borrowed, nodes, index)),
        ),
        hanging::<PTE>(before, root, borrowed, nodes, index).subset_of(nodes.dom()),
        nodes.dom().subset_of(before.dom()),
        after.dom() =~= before.dom().difference(
            hanging::<PTE>(before, root, borrowed, nodes, index),
        ),
{
    lemma_lend_wf::<PTE>(before, root, levels, borrowed, nodes, index);
    let gone = hanging::<PTE>(before, root, borrowed, nodes, index);
    assert(node_ok::<PTE>(before, root, levels, borrowed, nodes, root));
    assert forall|t: usize| nodes.contains_key(t) implies before.contains_key(t) by {
        assert(node_ok::<PTE>(before, root, levels, borrowed, nodes, t));
    }
    match word {
        Some(w) => {
            lemma_word_written_wf::<PTE>(
                freed,
                root,
                levels,
                borrowed.insert(index),
                nodes.remove_keys(gone),
                Slot { table: root, index },
                w,
            );
        },
        None => {},
    }
}

/// After a page was unmapped, mapping a page of the same size at the same
/// address succeeds: in a well formed tree, at an address whose slot of the
/// root table is not on loan. The tables on the way are all there and the
/// slot is unused, so that no memory is needed.
pub proof fn lemma_unmap_then_map<PTE: GenericPTE>(
    before: Map<usize, Seq<u64>>,
    after: Map<usize, Seq<u64>>,
    root: usize,
    levels: usize,
    borrowed: Set<usize>,
    nodes: Map<usize, TableNode>,
    vaddr: usize,
    unmapped: Result<(usize, MappingFlags, PageSize), PagingError>,
)
    requires
        tree_wf::<PTE>(before, root, levels, borrowed, nodes),
        !borrowed.contains(spec_root_index(vaddr, levels)),
        unmap_outcome::<PTE>(before, after, root, levels, vaddr, unmapped),
        unmapped is Ok,
    ensures
        ({
            let (slot, size) = locate::<PTE>(before, root, levels, vaddr).unwrap();
            &&& unmapped.unwrap().2 == size
            &&& target_slot::<PTE>(after, root, levels, vaddr, size) == Ok::<
                Option<Slot>,
                PagingError,
            >(Some(slot))
            &&& entry_at::<PTE>(after, slot.table, slot.index).unwrap().spec_is_unused()
        }),
        forall|later: Map<usize, Seq<u64>>, page: PTE, mapped: Result<(), PagingError>| #[trigger]
            map_outcome::<PTE>(
                after,
                later,
                root,
                levels,
                vaddr,
                page,
                unmapped.unwrap().2,
                mapped,
            ) ==> mapped is Ok,
{
    lemma_indices();
    lemma_in_use::<PTE>();
    PTE::lemma_zero();
    PTE::lemma_raw(PTE::spec_from_raw(0));
    let (slot, size) = locate::<PTE>(before, root, levels, vaddr).unwrap();
    lemma_located_owned::<PTE>(before, root, levels, borrowed, nodes, vaddr);
    let i4 = spec_p4_index(vaddr);
    let i3 = spec_p3_index(vaddr);
    let i2 = spec_p2_index(vaddr);
    let i1 = spec_p1_index(vaddr);
    assert forall|t: usize, i: usize| #[trigger] entry_at::<PTE>(before, t, i) is Some implies if t
        == slot.table && i == slot.index {
        entry_at::<PTE>(after, t, i) == Some(PTE::spec_from_raw(0))
    } else {
        entry_at::<PTE>(after, t, i) == entry_at::<PTE>(before, t, i)
    } by {
        if t == slot.table && i != slot.index {
            assert(after[t][i as int] == before[t][i as int]);
        }
    }
    let p3 = top_table::<PTE>(before, root, levels, vaddr).unwrap();
    if levels == 4 {
        assert(child_table::<PTE>(before, root, i4) is Ok);
        assert(entry_at::<PTE>(before, root, i4) is Some);
        assert(nodes[p3].level == 1);
    }
    assert(entry_at::<PTE>(before, p3, i3) is Some);
    let e3 = entry_at::<PTE>(before, p3, i3).unwrap();
    if !e3.spec_is_huge() {
        assert(child_table::<PTE>(before, p3, i3) is Ok);
        let p2 = spec_next_table(e3).unwrap();
        assert(nodes[p2].level == nodes[p3].level + 1);
        assert(entry_at::<PTE>(before, p2, i2) is Some);
        let e2 = entry_at::<PTE>(before, p2, i2).unwrap();
        if !e2.spec_is_huge() {
            assert(child_table::<PTE>(before, p2, i2) is Ok);
            let p1 = spec_next_table(e2).unwrap();
            assert(nodes[p1].level == nodes[p2].level + 1);
            assert(entry_at::<PTE>(before, p1, i1) is Some);
        }
    }
}

/// Whether two addresses have the same index at the level of a page of
/// `size` and at every level above: whether they lie in one page of that
/// size, as far as a tree of `levels` levels tells addresses apart.
pub open spec fn same_page(vaddr: usize, other: usize, size: PageSize, levels: usize) -> bool {
    &&& levels == 4 ==> spec_p4_index(vaddr) == spec_p4_index(other)
    &&& spec_p3_index(vaddr) == spec_p3_index(other)
    &&& size != PageSize::Size1G ==> spec_p2_index(vaddr) == spec_p2_index(other)
    &&& size == PageSize::Size4K ==> spec_p1_index(vaddr) == spec_p1_index(other)
}

/// Replacing the descriptor that translates an address leaves the
/// translation of every address in another page as it was: in a well formed
/// tree, for addresses whose slots of the root table are not on loan.
pub proof fn lemma_other_pages_kept<PTE: GenericPTE>(
    frames: Map<usize, Seq<u64>>,
    root: usize,
    levels: usize,
    borrowed: Set<usize>,
    nodes: Map<usize, TableNode>,
    vaddr: usize,
    other: usize,
    word: u64,
)
    requires
        tree_wf::<PTE>(frames, root, levels, borrowed, nodes),
        !borrowed.contains(spec_root_index(vaddr, levels)),
        !borrowed.contains(spec_root_index(other, levels)),
        locate::<PTE>(frames, root, levels, vaddr) is Ok,
        !same_page(vaddr, other, locate::<PTE>(frames, root, levels, vaddr).unwrap().1, levels),
    ensures
        spec_query::<PTE>(
            write_slot(frames, locate::<PTE>(frames, root, levels, vaddr).unwrap().0, word),
            root,
            levels,
            other,
        ) == spec_query::<PTE>(frames, root, levels, other),
{
    lemma_indices();
    let (slot, size) = locate::<PTE>(frames, root, levels, vaddr).unwrap();
    let after = write_slot(frames, slot, word);
    lemma_located_owned::<PTE>(frames, root, levels, borrowed, nodes, vaddr);
    assert forall|t: usize, i: usize| #[trigger]
        entry_at::<PTE>(after, t, i) == if t == slot.table && i == slot.index {
            Some(PTE::spec_from_raw(word))
        } else {
            entry_at::<PTE>(frames, t, i)
        } by {
        if entry_at::<PTE>(frames, t, i) is Some && t == slot.table && i != slot.index {
            assert(after[t][i as int] == frames[t][i as int]);
        }
    }
    // the way of `vaddr`
    let v4 = spec_p4_index(vaddr);
    let v3 = spec_p3_index(vaddr);
    let v2 = spec_p2_index(vaddr);
    let v1 = spec_p1_index(vaddr);
    let a3 = top_table::<PTE>(frames, root, levels, vaddr).unwrap();
    if levels == 4 {
        assert(child_table::<PTE>(frames, root, v4) is Ok);
    }
    let ea3 = entry_at::<PTE>(frames, a3, v3).unwrap();
    if !ea3.spec_is_huge() {
        assert(child_table::<PTE>(frames, a3, v3) is Ok);
        let a2 = spec_next_table(ea3).unwrap();
        let ea2 = entry_at::<PTE>(frames, a2, v2).unwrap();
        if !ea2.spec_is_huge() {
            assert(child_table::<PTE>(frames, a2, v2) is Ok);
        }
    }
    // the way of `other`
    let o4 = spec_p4_index(other);
    let o3 = spec_p3_index(other);
    let o2 = spec_p2_index(other);
    let o1 = spec_p1_index(other);
    assert(nodes.contains_key(root));
    if levels == 3 || child_table::<PTE>(frames, root, o4) is Ok {
        let b3 = top_table::<PTE>(frames, root, levels, other).unwrap();
        assert(nodes.contains_key(b3));
        assert(levels == 4 ==> nodes[b3] == (TableNode { level: 1, parent: root, index: o4 }));
        if entry_at::<PTE>(frames, b3, o3) is Some {
            let eb3 = entry_at::<PTE>(frames, b3, o3).unwrap();
            if !eb3.spec_is_huge() && child_table::<PTE>(frames, b3, o3) is Ok {
                let b2 = spec_next_table(eb3).unwrap();
                assert(nodes.contains_key(b2));
                assert(nodes[b2] == (TableNode {
                    level: nodes[b3].level + 1,
                    parent: b3,
                    index: o3,
                }));
                if entry_at::<PTE>(frames, b2, o2) is Some {
                    let eb2 = entry_at::<PTE>(frames, b2, o2).unwrap();
                    if !eb2.spec_is_huge() && child_table::<PTE>(frames, b2, o2) is Ok {
                        let b1 = spec_next_table(eb2).unwrap();
                        assert(nodes.contains_key(b1));
                        assert(nodes[b1] == (TableNode {
                            level: nodes[b2].level + 1,
                            parent: b2,
                            index: o2,
                        }));
                    }
                }
            }
        }
    }
}

/// Every index of a table is below the number of its entries.
pub proof fn lemma_indices()
    ensures
        forall|v: usize| #[trigger] spec_p4_index(v) < ENTRY_COUNT,
        forall|v: usize| #[trigger] spec_p3_index(v) < ENTRY_COUNT,
        forall|v: usize| #[trigger] spec_p2_index(v) < ENTRY_COUNT,
        forall|v: usize| #[trigger] spec_p1_index(v) < ENTRY_COUNT,
{
    assert forall|v: usize|
        #![trigger spec_p4_index(v)]
        #![trigger spec_p3_index(v)]
        #![trigger spec_p2_index(v)]
        #![trigger spec_p1_index(v)]
        spec_p4_index(v) < ENTRY_COUNT && spec_p3_index(v) < ENTRY_COUNT && spec_p2_index(v)
            < ENTRY_COUNT && spec_p1_index(v) < ENTRY_COUNT by {
        let x: u64 = v as u64;
        assert((x >> 39) & 0x1ff < 512 && (x >> 30) & 0x1ff < 512 && (x >> 21) & 0x1ff < 512 && (x
            >> 12) & 0x1ff < 512) by (bit_vector);
    }
}

/// What every edit leaves of a well formed tree, as the contracts of the
/// edits say it: the tree is well formed in the frames `after`, no frame
/// went away, and the tree owns what it owned and the frames that were made.
pub open spec fn edit_kept<PTE: GenericPTE>(
    before: Map<usize, Seq<u64>>,
    after: Map<usize, Seq<u64>>,
    root: usize,
    levels: usize,
    borrowed: Set<usize>,
    kept: Map<usize, TableNode>,
    now: Map<usize, TableNode>,
) -> bool {
    &&& tree_wf::<PTE>(after, root, levels, borrowed, now)
    &&& before.dom().subset_of(after.dom())
    &&& now.dom() =~= kept.dom().union(after.dom().difference(before.dom()))
}

/// Through any sequence of edits a tree owns exactly the frames that were
/// made since the frames `base` from which it was created: `states` are the
/// frames and `owned` the tables of the tree after the creation and after
/// each edit.
pub proof fn lemma_edits_owned<PTE: GenericPTE>(
    base: Map<usize, Seq<u64>>,
    states: Seq<Map<usize, Seq<u64>>>,
    owned: Seq<Map<usize, TableNode>>,
    root: usize,
    levels: usize,
    borrowed: Set<usize>,
    upto: int,
)
    requires
        states.len() == owned.len(),
        0 <= upto < states.len(),
        !base.contains_key(root),
        states[0].dom() =~= base.dom().insert(root),
        owned[0].dom() =~= set![root],
        forall|k: int|
            0 <= k < states.len() - 1 ==> edit_kept::<PTE>(
                #[trigger] states[k],
                states[k + 1],
                root,
                levels,
                borrowed,
                owned[k],
                owned[k + 1],
            ),
    ensures
        base.dom().subset_of(states[upto].dom()),
        owned[upto].dom() =~= states[upto].dom().difference(base.dom()),
    decreases upto,
{
    if upto > 0 {
        lemma_edits_owned::<PTE>(base, states, owned, root, levels, borrowed, upto - 1);
        assert(edit_kept::<PTE>(
            states[upto - 1],
            states[upto - 1 + 1],
            root,
            levels,
            borrowed,
            owned[upto - 1],
            owned[upto - 1 + 1],
        ));
    }
}

/// Destroying a tree gives back exactly the frames that it took: after any
/// sequence of edits that keep the tree well formed, the frames without
/// those that the tree owns, which is what destroying a well formed tree
/// leaves, are the frames that were allocated before the tree was created.
pub proof fn lemma_edits_then_destroy<PTE: GenericPTE>(
    base: Map<usize, Seq<u64>>,
    states: Seq<Map<usize, Seq<u64>>>,
    owned: Seq<Map<usize, TableNode>>,
    root: usize,
    levels: usize,
    borrowed: Set<usize>,
)
    requires
        states.len() == owned.len(),
        states.len() > 0,
        !base.contains_key(root),
        states[0].dom() =~= base.dom().insert(root),
        owned[0].dom() =~= set![root],
        forall|k: int|
            0 <= k < states.len() - 1 ==> edit_kept::<PTE>(
                #[trigger] states[k],
                states[k + 1],
                root,
                levels,
                borrowed,
                owned[k],
                owned[k + 1],
            ),
    ensures
        states.last().remove_keys(owned.last().dom()).dom() =~= base.dom(),
{
    lemma_edits_owned::<PTE>(base, states, owned, root, levels, borrowed, states.len() - 1);
}

/// After a page was remapped, a query of its address answers with the new
/// frame, the permissions as the descriptor grants them, and the size as
/// before: in a well formed tree, at an address whose slot of the root table
/// is not on loan, for a descriptor that was present and huge as its size
/// is, some permission, and an address that a page descriptor of the size
/// can hold.
pub proof fn lemma_remap_then_query<PTE: GenericPTE>(
    before: Map<usize, Seq<u64>>,
    after: Map<usize, Seq<u64>>,
    root: usize,
    levels: usize,
    borrowed: Set<usize>,
    nodes: Map<usize, TableNode>,
    vaddr: usize,
    paddr: usize,
    flags: MappingFlags,
    size: PageSize,
)
    requires
        levels == 3 || levels == 4,
        tree_wf::<PTE>(before, root, levels, borrowed, nodes),
        !borrowed.contains(spec_root_index(vaddr, levels)),
        !flags.spec_is_empty(),
        remap_outcome::<PTE>(before, after, root, levels, vaddr, paddr, flags, Ok(size)),
        spec_query::<PTE>(before, root, levels, vaddr) is Ok,
        entry_at::<PTE>(
            before,
            locate::<PTE>(before, root, levels, vaddr).unwrap().0.table,
            locate::<PTE>(before, root, levels, vaddr).unwrap().0.index,
        ).unwrap().spec_is_huge() == size.spec_is_huge(),
        PTE::spec_holds_page(paddr, size.spec_is_huge()),
    ensures
        spec_query::<PTE>(after, root, levels, vaddr) == Ok::<
            (usize, MappingFlags, PageSize),
            PagingError,
        >(
            (
                crate::walk64::spec_wrapping_sum(paddr, (vaddr % size.spec_bytes()) as usize),
                PTE::spec_new_page(0, flags, false).spec_flags(),
                size,
            ),
        ),
{
    lemma_indices();
    lemma_in_use::<PTE>();
    let (slot, found) = locate::<PTE>(before, root, levels, vaddr).unwrap();
    let old = entry_at::<PTE>(before, slot.table, slot.index).unwrap();
    let moved = old.spec_set_paddr(paddr);
    let entry = moved.spec_set_flags(flags, size.spec_is_huge());
    PTE::lemma_set_paddr(old, paddr);
    PTE::lemma_set_flags(moved, flags, size.spec_is_huge());
    PTE::lemma_raw(entry);
    PTE::lemma_present(entry);
    lemma_located_owned::<PTE>(before, root, levels, borrowed, nodes, vaddr);
    assert forall|t: usize, i: usize| #[trigger]
        entry_at::<PTE>(after, t, i) == if t == slot.table && i == slot.index {
            Some(entry)
        } else {
            entry_at::<PTE>(before, t, i)
        } by {
        if entry_at::<PTE>(before, t, i) is Some && t == slot.table && i != slot.index {
            assert(after[t][i as int] == before[t][i as int]);
        }
    }
    let i4 = spec_p4_index(vaddr);
    let i3 = spec_p3_index(vaddr);
    let i2 = spec_p2_index(vaddr);
    let i1 = spec_p1_index(vaddr);
    let p3 = top_table::<PTE>(before, root, levels, vaddr).unwrap();
    assert(node_ok::<PTE>(before, root, levels, borrowed, nodes, root));
    if levels == 4 {
        assert(child_table::<PTE>(before, root, i4) is Ok);
        assert(node_ok::<PTE>(before, root, levels, borrowed, nodes, p3));
    }
    assert(top_table::<PTE>(after, root, levels, vaddr) == Ok::<usize, PagingError>(p3));
    let e3 = entry_at::<PTE>(before, p3, i3).unwrap();
    if !e3.spec_is_huge() {
        assert(child_table::<PTE>(before, p3, i3) is Ok);
        let p2 = spec_next_table(e3).unwrap();
        assert(node_ok::<PTE>(before, root, levels, borrowed, nodes, p2));
        let e2 = entry_at::<PTE>(before, p2, i2).unwrap();
        if !e2.spec_is_huge() {
            assert(child_table::<PTE>(before, p2, i2) is Ok);
            let p1 = spec_next_table(e2).unwrap();
            assert(node_ok::<PTE>(before, root, levels, borrowed, nodes, p1));
        }
    }
    assert(locate::<PTE>(after, root, levels, vaddr) == Ok::<(Slot, PageSize), PagingError>(
        (slot, size),
    ));
}

} // verus!
