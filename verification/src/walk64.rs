//! The walks of a tree of three or four levels with 512 entries in each
//! table, as the 64-bit architectures have them, and the edits of a single
//! page. The functions here work on the address of a root table; the page
//! table types wrap them.

use vstd::prelude::*;
use crate::{PageSize, PagingError};
use crate::entry::{GenericPTE, MappingFlags};
use crate::handler::{frame_word, frames_well_formed, PagingHandler, FRAME_WORDS};
use crate::owned64::{
    below, intact, lemma_below_all, lemma_below_next, lemma_typed, lemma_under_child, subtree, under,
    grown, lemma_created_wf, lemma_indices, lemma_written_wf, level_of, on_loan, spec_root_index,
    tree_wf, TableNode,
};

verus! {

/// The number of entries in a table.
pub const ENTRY_COUNT: usize = 512;

/// The index that the top table of four levels has for `vaddr`: bits 39..48.
pub open spec fn spec_p4_index(vaddr: usize) -> usize {
    (((vaddr as u64) >> 39) & 0x1ff) as usize
}

/// The index that the level of 1G blocks has for `vaddr`: bits 30..39.
pub open spec fn spec_p3_index(vaddr: usize) -> usize {
    (((vaddr as u64) >> 30) & 0x1ff) as usize
}

/// The index that the level of 2M blocks has for `vaddr`: bits 21..30.
pub open spec fn spec_p2_index(vaddr: usize) -> usize {
    (((vaddr as u64) >> 21) & 0x1ff) as usize
}

/// The index that the level of 4K pages has for `vaddr`: bits 12..21.
pub open spec fn spec_p1_index(vaddr: usize) -> usize {
    (((vaddr as u64) >> 12) & 0x1ff) as usize
}

/// The index of `vaddr` in the top table of a four-level tree.
pub fn p4_index(vaddr: usize) -> (r: usize)
    ensures
        r == spec_p4_index(vaddr),
        r < ENTRY_COUNT,
{
    let v: u64 = vaddr as u64;
    assert((v >> 39) & 0x1ff < 512) by (bit_vector);
    ((v >> 39) & 0x1ff) as usize
}

/// The index of `vaddr` in a table of 1G blocks.
pub fn p3_index(vaddr: usize) -> (r: usize)
    ensures
        r == spec_p3_index(vaddr),
        r < ENTRY_COUNT,
{
    let v: u64 = vaddr as u64;
    assert((v >> 30) & 0x1ff < 512) by (bit_vector);
    ((v >> 30) & 0x1ff) as usize
}

/// The index of `vaddr` in a table of 2M blocks.
pub fn p2_index(vaddr: usize) -> (r: usize)
    ensures
        r == spec_p2_index(vaddr),
        r < ENTRY_COUNT,
{
    let v: u64 = vaddr as u64;
    assert((v >> 21) & 0x1ff < 512) by (bit_vector);
    ((v >> 21) & 0x1ff) as usize
}

/// The index of `vaddr` in a table of 4K pages.
pub fn p1_index(vaddr: usize) -> (r: usize)
    ensures
        r == spec_p1_index(vaddr),
        r < ENTRY_COUNT,
{
    let v: u64 = vaddr as u64;
    assert((v >> 12) & 0x1ff < 512) by (bit_vector);
    ((v >> 12) & 0x1ff) as usize
}

/// Where a descriptor lies: the table frame and the index in it.
#[derive(Clone, Copy, PartialEq, Eq, Structural, Debug)]
pub struct Slot {
    /// The physical address of the table frame.
    pub table: usize,
    /// The index of the descriptor in the table.
    pub index: usize,
}

/// The descriptor at `index` of the table at `table`, if the frame is there.
pub open spec fn entry_at<PTE: GenericPTE>(
    frames: Map<usize, Seq<u64>>,
    table: usize,
    index: usize,
) -> Option<PTE> {
    match frame_word(frames, table, index as int) {
        Some(w) => Some(PTE::spec_from_raw(w)),
        None => None,
    }
}

/// The table that a descriptor of an upper level points to. A descriptor with
/// address zero points nowhere, and a huge one maps a block.
pub open spec fn spec_next_table<PTE: GenericPTE>(entry: PTE) -> Result<usize, PagingError> {
    if entry.spec_paddr() == 0 {
        Err(PagingError::NotMapped)
    } else if entry.spec_is_huge() {
        Err(PagingError::MappedToHugePage)
    } else {
        Ok(entry.spec_paddr())
    }
}

/// The table that the descriptor at `index` of `table` points to. Where the
/// frame of `table` is missing there is no mapping.
pub open spec fn child_table<PTE: GenericPTE>(
    frames: Map<usize, Seq<u64>>,
    table: usize,
    index: usize,
) -> Result<usize, PagingError> {
    match entry_at::<PTE>(frames, table, index) {
        Some(e) => spec_next_table(e),
        None => Err(PagingError::NotMapped),
    }
}

/// The descriptor that translates `vaddr`, looked for from the table of 4K
/// pages at `p1`.
pub open spec fn locate_from_p1<PTE: GenericPTE>(
    frames: Map<usize, Seq<u64>>,
    p1: usize,
    vaddr: usize,
) -> Result<(Slot, PageSize), PagingError> {
    match entry_at::<PTE>(frames, p1, spec_p1_index(vaddr)) {
        Some(_) => Ok((Slot { table: p1, index: spec_p1_index(vaddr) }, PageSize::Size4K)),
        None => Err(PagingError::NotMapped),
    }
}

/// The descriptor that translates `vaddr`, looked for from the table of 2M
/// blocks at `p2`.
pub open spec fn locate_from_p2<PTE: GenericPTE>(
    frames: Map<usize, Seq<u64>>,
    p2: usize,
    vaddr: usize,
) -> Result<(Slot, PageSize), PagingError> {
    match entry_at::<PTE>(frames, p2, spec_p2_index(vaddr)) {
        Some(e) => if e.spec_is_huge() {
            Ok((Slot { table: p2, index: spec_p2_index(vaddr) }, PageSize::Size2M))
        } else {
            match spec_next_table(e) {
                Ok(p1) => locate_from_p1::<PTE>(frames, p1, vaddr),
                Err(err) => Err(err),
            }
        },
        None => Err(PagingError::NotMapped),
    }
}

/// The descriptor that translates `vaddr`, looked for from the table of 1G
/// blocks at `p3`.
pub open spec fn locate_from_p3<PTE: GenericPTE>(
    frames: Map<usize, Seq<u64>>,
    p3: usize,
    vaddr: usize,
) -> Result<(Slot, PageSize), PagingError> {
    match entry_at::<PTE>(frames, p3, spec_p3_index(vaddr)) {
        Some(e) => if e.spec_is_huge() {
            Ok((Slot { table: p3, index: spec_p3_index(vaddr) }, PageSize::Size1G))
        } else {
            match spec_next_table(e) {
                Ok(p2) => locate_from_p2::<PTE>(frames, p2, vaddr),
                Err(err) => Err(err),
            }
        },
        None => Err(PagingError::NotMapped),
    }
}

/// The table of 1G blocks that serves `vaddr`: the root of a tree of three
/// levels, and what the top table points to in one of four.
pub open spec fn top_table<PTE: GenericPTE>(
    frames: Map<usize, Seq<u64>>,
    root: usize,
    levels: usize,
    vaddr: usize,
) -> Result<usize, PagingError> {
    if levels == 3 {
        Ok(root)
    } else {
        child_table::<PTE>(frames, root, spec_p4_index(vaddr))
    }
}

/// The descriptor that translates `vaddr` in the tree at `root`, and the size
/// of what it maps: the walk of a lookup. It ends at the first huge
/// descriptor, or at the level of 4K pages.
pub open spec fn locate<PTE: GenericPTE>(
    frames: Map<usize, Seq<u64>>,
    root: usize,
    levels: usize,
    vaddr: usize,
) -> Result<(Slot, PageSize), PagingError> {
    match top_table::<PTE>(frames, root, levels, vaddr) {
        Ok(p3) => locate_from_p3::<PTE>(frames, p3, vaddr),
        Err(err) => Err(err),
    }
}

/// The sum of two addresses in a machine word: the sum less one more than
/// the greatest word, where it is greater than that.
pub open spec fn spec_wrapping_sum(a: usize, b: usize) -> usize {
    if a + b <= usize::MAX {
        (a + b) as usize
    } else {
        (a + b - usize::MAX - 1) as usize
    }
}

/// The sum of two addresses in a machine word.
pub fn wrapping_sum(a: usize, b: usize) -> (r: usize)
    ensures
        r == spec_wrapping_sum(a, b),
{
    if a <= usize::MAX - b {
        a + b
    } else {
        a - (usize::MAX - b) - 1
    }
}

/// What a query of `vaddr` answers for the descriptor `entry` that maps a
/// page of `size`: the address in the frame that belongs to `vaddr`, the
/// permissions, and the size. A descriptor that is not present maps nothing.
pub open spec fn translation<PTE: GenericPTE>(entry: PTE, size: PageSize, vaddr: usize) -> Result<
    (usize, MappingFlags, PageSize),
    PagingError,
> {
    if !entry.spec_is_present() {
        Err(PagingError::NotMapped)
    } else {
        Ok(
            (
                spec_wrapping_sum(entry.spec_paddr(), (vaddr % size.spec_bytes()) as usize),
                entry.spec_flags(),
                size,
            ),
        )
    }
}

/// What a query of `vaddr` answers in the tree at `root`.
pub open spec fn spec_query<PTE: GenericPTE>(
    frames: Map<usize, Seq<u64>>,
    root: usize,
    levels: usize,
    vaddr: usize,
) -> Result<(usize, MappingFlags, PageSize), PagingError> {
    match locate::<PTE>(frames, root, levels, vaddr) {
        Ok((slot, size)) => translation(
            entry_at::<PTE>(frames, slot.table, slot.index).unwrap(),
            size,
            vaddr,
        ),
        Err(err) => Err(err),
    }
}

/// A frame of 512 zero words.
pub open spec fn zero_words() -> Seq<u64> {
    Seq::new(FRAME_WORDS as nat, |i: int| 0u64)
}

/// The frames after the word `word` is written to `slot`.
pub open spec fn write_slot(frames: Map<usize, Seq<u64>>, slot: Slot, word: u64) -> Map<
    usize,
    Seq<u64>,
> {
    frames.insert(slot.table, frames[slot.table].update(slot.index as int, word))
}

/// Every frame of `frames` lies where a table descriptor can point to.
pub open spec fn frames_fit<PTE: GenericPTE>(frames: Map<usize, Seq<u64>>) -> bool {
    forall|p: usize| #[trigger] frames.contains_key(p) ==> PTE::spec_holds_table(p)
}

/// `after` holds every descriptor of `before` that was in use, unchanged.
/// What differs was unused before, or lies in a frame that `before` did not
/// hold.
pub open spec fn only_unused_changed<PTE: GenericPTE>(
    before: Map<usize, Seq<u64>>,
    after: Map<usize, Seq<u64>>,
) -> bool {
    forall|t: usize, i: usize|
        #![trigger entry_at::<PTE>(before, t, i)]
        #![trigger entry_at::<PTE>(after, t, i)]
        match entry_at::<PTE>(before, t, i) {
            Some(e) => e.spec_is_unused() || entry_at::<PTE>(after, t, i) == Some(e),
            None => true,
        }
}

/// One step down of a walk that may create tables: the table that the
/// descriptor at `index` of `table` points to, or `None` where the descriptor
/// is unused and a table has to be made. A huge page in the way is a mapping
/// that a finer one would hide: the step fails with `AlreadyMapped`.
pub open spec fn create_step<PTE: GenericPTE>(
    frames: Map<usize, Seq<u64>>,
    table: usize,
    index: usize,
) -> Result<Option<usize>, PagingError> {
    match entry_at::<PTE>(frames, table, index) {
        Some(e) => if e.spec_is_unused() {
            Ok(None)
        } else if e.spec_is_huge() {
            Err(PagingError::AlreadyMapped)
        } else {
            match spec_next_table(e) {
                Ok(t) => Ok(Some(t)),
                Err(err) => Err(err),
            }
        },
        None => Err(PagingError::NotMapped),
    }
}

/// The slot at `index` of `table`, if the frame is there.
pub open spec fn slot_in<PTE: GenericPTE>(
    frames: Map<usize, Seq<u64>>,
    table: usize,
    index: usize,
) -> Result<Option<Slot>, PagingError> {
    match entry_at::<PTE>(frames, table, index) {
        Some(_) => Ok(Some(Slot { table, index })),
        None => Err(PagingError::NotMapped),
    }
}

/// The slot for a page of `size` at `vaddr`, looked for from the table of 2M
/// blocks at `p2`.
pub open spec fn target_from_p2<PTE: GenericPTE>(
    frames: Map<usize, Seq<u64>>,
    p2: usize,
    vaddr: usize,
    size: PageSize,
) -> Result<Option<Slot>, PagingError> {
    if size == PageSize::Size2M {
        slot_in::<PTE>(frames, p2, spec_p2_index(vaddr))
    } else {
        match create_step::<PTE>(frames, p2, spec_p2_index(vaddr)) {
            Ok(Some(p1)) => slot_in::<PTE>(frames, p1, spec_p1_index(vaddr)),
            Ok(None) => Ok(None),
            Err(err) => Err(err),
        }
    }
}

/// The slot for a page of `size` at `vaddr`, looked for from the table of 1G
/// blocks at `p3`.
pub open spec fn target_from_p3<PTE: GenericPTE>(
    frames: Map<usize, Seq<u64>>,
    p3: usize,
    vaddr: usize,
    size: PageSize,
) -> Result<Option<Slot>, PagingError> {
    if size == PageSize::Size1G {
        slot_in::<PTE>(frames, p3, spec_p3_index(vaddr))
    } else {
        match create_step::<PTE>(frames, p3, spec_p3_index(vaddr)) {
            Ok(Some(p2)) => target_from_p2::<PTE>(frames, p2, vaddr, size),
            Ok(None) => Ok(None),
            Err(err) => Err(err),
        }
    }
}

/// Where a new page of `size` at `vaddr` goes in the tree at `root`, as far
/// as the tables on the way are there: `Ok(Some(slot))` where they all are,
/// `Ok(None)` where one has to be made first, and the error where the way is
/// blocked by a huge page or a broken descriptor.
pub open spec fn target_slot<PTE: GenericPTE>(
    frames: Map<usize, Seq<u64>>,
    root: usize,
    levels: usize,
    vaddr: usize,
    size: PageSize,
) -> Result<Option<Slot>, PagingError> {
    if levels == 3 {
        target_from_p3::<PTE>(frames, root, vaddr, size)
    } else {
        match create_step::<PTE>(frames, root, spec_p4_index(vaddr)) {
            Ok(Some(p3)) => target_from_p3::<PTE>(frames, p3, vaddr, size),
            Ok(None) => Ok(None),
            Err(err) => Err(err),
        }
    }
}

/// A query that finds a mapping finds the same in every later state of the
/// frames that left the descriptors in use as they were.
pub proof fn lemma_query_preserved<PTE: GenericPTE>(
    before: Map<usize, Seq<u64>>,
    after: Map<usize, Seq<u64>>,
    root: usize,
    levels: usize,
    vaddr: usize,
)
    requires
        only_unused_changed::<PTE>(before, after),
        spec_query::<PTE>(before, root, levels, vaddr) is Ok,
    ensures
        spec_query::<PTE>(after, root, levels, vaddr) == spec_query::<PTE>(
            before,
            root,
            levels,
            vaddr,
        ),
{
    lemma_in_use::<PTE>();
    let i4 = spec_p4_index(vaddr);
    let i3 = spec_p3_index(vaddr);
    let i2 = spec_p2_index(vaddr);
    let i1 = spec_p1_index(vaddr);
    let p3 = top_table::<PTE>(before, root, levels, vaddr).unwrap();
    assert(top_table::<PTE>(after, root, levels, vaddr) == Ok::<usize, PagingError>(p3));
    let e3 = entry_at::<PTE>(before, p3, i3).unwrap();
    if !e3.spec_is_huge() {
        let p2 = spec_next_table(e3).unwrap();
        let e2 = entry_at::<PTE>(before, p2, i2).unwrap();
        if !e2.spec_is_huge() {
            let p1 = spec_next_table(e2).unwrap();
            let e1 = entry_at::<PTE>(before, p1, i1).unwrap();
            assert(entry_at::<PTE>(after, p1, i1) == Some(e1));
        } else {
            assert(entry_at::<PTE>(after, p2, i2) == Some(e2));
        }
    } else {
        assert(entry_at::<PTE>(after, p3, i3) == Some(e3));
    }
}

/// A descriptor that is present, or huge, or holds an address, is in use.
pub proof fn lemma_in_use<PTE: GenericPTE>()
    ensures
        forall|e: PTE| #[trigger]
            e.spec_is_unused() ==> !e.spec_is_present() && !e.spec_is_huge() && e.spec_paddr()
                == 0,
{
    assert forall|e: PTE| #[trigger] e.spec_is_unused() implies !e.spec_is_present()
        && !e.spec_is_huge() && e.spec_paddr() == 0 by {
        PTE::lemma_raw(e);
        PTE::lemma_zero();
    }
}

/// Reads the descriptor at `index` of the table at `table`.
pub fn read_entry<PTE: GenericPTE, H: PagingHandler>(handler: &H, table: usize, index: usize) -> (r:
    Option<PTE>)
    requires
        handler.inv(),
    ensures
        r == entry_at::<PTE>(handler.frames(), table, index),
{
    match handler.read(table, index) {
        Some(w) => Some(PTE::from_raw(w)),
        None => None,
    }
}

/// The table that a descriptor of an upper level points to.
pub fn next_table<PTE: GenericPTE>(entry: &PTE) -> (r: Result<usize, PagingError>)
    ensures
        r == spec_next_table(*entry),
{
    if entry.paddr() == 0 {
        Err(PagingError::NotMapped)
    } else if entry.is_huge() {
        Err(PagingError::MappedToHugePage)
    } else {
        Ok(entry.paddr())
    }
}

/// Walks from `root` to the descriptor that translates `vaddr`, and returns
/// where it lies, the descriptor, and the size of what it maps.
pub fn get_entry<PTE: GenericPTE, H: PagingHandler>(
    handler: &H,
    root: usize,
    levels: usize,
    vaddr: usize,
) -> (r: Result<(Slot, PTE, PageSize), PagingError>)
    requires
        handler.inv(),
        levels == 3 || levels == 4,
    ensures
        match r {
            Ok((slot, entry, size)) => {
                &&& locate::<PTE>(handler.frames(), root, levels, vaddr) == Ok::<
                    (Slot, PageSize),
                    PagingError,
                >((slot, size))
                &&& entry_at::<PTE>(handler.frames(), slot.table, slot.index) == Some(entry)
                &&& slot.index < ENTRY_COUNT
            },
            Err(err) => locate::<PTE>(handler.frames(), root, levels, vaddr) == Err::<
                (Slot, PageSize),
                PagingError,
            >(err),
        },
{
    let p3: usize = if levels == 3 {
        root
    } else {
        let p4e: PTE = match read_entry::<PTE, H>(handler, root, p4_index(vaddr)) {
            Some(e) => e,
            None => { return Err(PagingError::NotMapped); },
        };
        match next_table(&p4e) {
            Ok(t) => t,
            Err(err) => { return Err(err); },
        }
    };
    let i3: usize = p3_index(vaddr);
    let p3e: PTE = match read_entry::<PTE, H>(handler, p3, i3) {
        Some(e) => e,
        None => { return Err(PagingError::NotMapped); },
    };
    if p3e.is_huge() {
        return Ok((Slot { table: p3, index: i3 }, p3e, PageSize::Size1G));
    }
    let p2: usize = match next_table(&p3e) {
        Ok(t) => t,
        Err(err) => { return Err(err); },
    };
    let i2: usize = p2_index(vaddr);
    let p2e: PTE = match read_entry::<PTE, H>(handler, p2, i2) {
        Some(e) => e,
        None => { return Err(PagingError::NotMapped); },
    };
    if p2e.is_huge() {
        return Ok((Slot { table: p2, index: i2 }, p2e, PageSize::Size2M));
    }
    let p1: usize = match next_table(&p2e) {
        Ok(t) => t,
        Err(err) => { return Err(err); },
    };
    let i1: usize = p1_index(vaddr);
    let p1e: PTE = match read_entry::<PTE, H>(handler, p1, i1) {
        Some(e) => e,
        None => { return Err(PagingError::NotMapped); },
    };
    Ok((Slot { table: p1, index: i1 }, p1e, PageSize::Size4K))
}

/// Fills the frame at `paddr` with zero words.
pub fn zero_frame<H: PagingHandler>(handler: &mut H, paddr: usize)
    requires
        old(handler).inv(),
        old(handler).frames().contains_key(paddr),
    ensures
        final(handler).inv(),
        final(handler).frames() == old(handler).frames().insert(paddr, zero_words()),
{
    let ghost before = handler.frames();
    proof {
        handler.lemma_inv();
    }
    let mut i: usize = 0;
    while i < FRAME_WORDS
        invariant
            i <= FRAME_WORDS,
            handler.inv(),
            handler.frames().dom() =~= before.dom(),
            before.contains_key(paddr),
            forall|p: usize|
                p != paddr && #[trigger] before.contains_key(p) ==> handler.frames()[p]
                    == before[p],
            handler.frames()[paddr].len() == FRAME_WORDS,
            forall|j: int| 0 <= j < i ==> handler.frames()[paddr][j] == 0,
        decreases FRAME_WORDS - i,
    {
        handler.write(paddr, i, 0);
        i = i + 1;
    }
    assert(handler.frames()[paddr] =~= zero_words());
    assert(handler.frames() =~= before.insert(paddr, zero_words()));
}

/// Allocates a frame for a table and fills it with zero words.
pub fn alloc_table<H: PagingHandler>(handler: &mut H) -> (r: Result<usize, PagingError>)
    requires
        old(handler).inv(),
    ensures
        final(handler).inv(),
        match r {
            Ok(paddr) => {
                &&& !old(handler).frames().contains_key(paddr)
                &&& final(handler).frames() == old(handler).frames().insert(paddr, zero_words())
            },
            Err(err) => err == PagingError::NoMemory && final(handler).frames() == old(handler).frames(),
        },
{
    let ghost before = handler.frames();
    match handler.alloc_frame() {
        Some(paddr) => {
            assert(handler.frames().dom().contains(paddr));
            assert(!before.dom().contains(paddr));
            zero_frame(handler, paddr);
            assert(handler.frames() =~= before.insert(paddr, zero_words()));
            Ok(paddr)
        },
        None => Err(PagingError::NoMemory),
    }
}

/// `after` is `before` with one more frame at `child`, all zero, and with a
/// descriptor at `slot` that points to it.
pub open spec fn table_created<PTE: GenericPTE>(
    before: Map<usize, Seq<u64>>,
    after: Map<usize, Seq<u64>>,
    slot: Slot,
    child: usize,
) -> bool {
    &&& !before.contains_key(child)
    &&& after == write_slot(
        before.insert(child, zero_words()),
        slot,
        PTE::spec_new_table(child).spec_raw(),
    )
}

/// What follows for the descriptors when a table was created at an unused
/// slot.
pub proof fn lemma_table_created<PTE: GenericPTE>(
    before: Map<usize, Seq<u64>>,
    after: Map<usize, Seq<u64>>,
    slot: Slot,
    child: usize,
)
    requires
        table_created::<PTE>(before, after, slot, child),
        child != 0,
        create_step::<PTE>(before, slot.table, slot.index) == Ok::<Option<usize>, PagingError>(
            None,
        ),
    ensures
        only_unused_changed::<PTE>(before, after),
        before.dom().subset_of(after.dom()),
        after.dom() =~= before.dom().insert(child),
        PTE::spec_holds_table(child) ==> create_step::<PTE>(after, slot.table, slot.index) == Ok::<
            Option<usize>,
            PagingError,
        >(Some(child)),
        forall|i: usize|
            i < FRAME_WORDS ==> #[trigger] entry_at::<PTE>(after, child, i) == Some(
                PTE::spec_from_raw(0),
            ),
        PTE::spec_from_raw(0).spec_is_unused(),
{
    lemma_in_use::<PTE>();
    PTE::lemma_zero();
    PTE::lemma_raw(PTE::spec_from_raw(0));
    let e = PTE::spec_new_table(child);
    PTE::lemma_raw(e);
    if PTE::spec_holds_table(child) {
        PTE::lemma_new_table(child);
    }
    assert forall|t: usize, i: usize|
        #![trigger entry_at::<PTE>(before, t, i)]
        #![trigger entry_at::<PTE>(after, t, i)]
        true implies match entry_at::<PTE>(before, t, i) {
        Some(x) => x.spec_is_unused() || entry_at::<PTE>(after, t, i) == Some(x),
        None => true,
    } by {
        if entry_at::<PTE>(before, t, i) is Some && t == slot.table && i != slot.index {
            assert(after[t][i as int] == before[t][i as int]);
        }
    }
}

/// Steps down from the descriptor at `index` of `table`, and makes the table
/// below first where the descriptor is unused.
pub fn next_table_mut_or_create<PTE: GenericPTE, H: PagingHandler>(
    handler: &mut H,
    table: usize,
    index: usize,
) -> (r: Result<usize, PagingError>)
    requires
        old(handler).inv(),
    ensures
        final(handler).inv(),
        match create_step::<PTE>(old(handler).frames(), table, index) {
            Ok(Some(t)) => r == Ok::<usize, PagingError>(t) && final(handler).frames() == old(handler).frames(),
            Ok(None) => match r {
                Ok(child) => table_created::<PTE>(
                    old(handler).frames(),
                    final(handler).frames(),
                    Slot { table, index },
                    child,
                ),
                Err(err) => err == PagingError::NoMemory && final(handler).frames() == old(handler).frames(),
            },
            Err(err) => r == Err::<usize, PagingError>(err) && final(handler).frames() == old(handler).frames(),
        },
{
    let entry: PTE = match read_entry::<PTE, H>(handler, table, index) {
        Some(e) => e,
        None => { return Err(PagingError::NotMapped); },
    };
    if entry.is_unused() {
        let paddr: usize = alloc_table(handler)?;
        handler.write(table, index, PTE::new_table(paddr).raw());
        Ok(paddr)
    } else if entry.is_huge() {
        Err(PagingError::AlreadyMapped)
    } else {
        next_table(&entry)
    }
}

/// Leaving the descriptors in use as they were carries over two steps.
pub proof fn lemma_unused_changed_twice<PTE: GenericPTE>(
    a: Map<usize, Seq<u64>>,
    b: Map<usize, Seq<u64>>,
    c: Map<usize, Seq<u64>>,
)
    requires
        only_unused_changed::<PTE>(a, b),
        only_unused_changed::<PTE>(b, c),
    ensures
        only_unused_changed::<PTE>(a, c),
{
    assert forall|t: usize, i: usize|
        #![trigger entry_at::<PTE>(a, t, i)]
        #![trigger entry_at::<PTE>(c, t, i)]
        true implies match entry_at::<PTE>(a, t, i) {
        Some(x) => x.spec_is_unused() || entry_at::<PTE>(c, t, i) == Some(x),
        None => true,
    } by {
        match entry_at::<PTE>(a, t, i) {
            Some(x) => {
                if !x.spec_is_unused() {
                    assert(entry_at::<PTE>(b, t, i) == Some(x));
                }
            },
            None => {},
        }
    }
}

/// What one step of the creating walk leaves behind, whether it found the
/// table below or made it.
pub open spec fn stepped<PTE: GenericPTE>(
    before: Map<usize, Seq<u64>>,
    after: Map<usize, Seq<u64>>,
    table: usize,
    index: usize,
    child: usize,
) -> bool {
    &&& only_unused_changed::<PTE>(before, after)
    &&& before.dom().subset_of(after.dom())
    &&& frames_fit::<PTE>(after) ==> create_step::<PTE>(after, table, index) == Ok::<
        Option<usize>,
        PagingError,
    >(Some(child))
    &&& after != before ==> {
        &&& create_step::<PTE>(before, table, index) == Ok::<Option<usize>, PagingError>(None)
        &&& forall|i: usize|
            i < FRAME_WORDS ==> #[trigger] entry_at::<PTE>(after, child, i) == Some(
                PTE::spec_from_raw(0),
            )
    }
}

/// Steps down as [`next_table_mut_or_create`] does, and sums up what the step
/// did.
pub fn step_down<PTE: GenericPTE, H: PagingHandler>(handler: &mut H, table: usize, index: usize) -> (r:
    Result<usize, PagingError>)
    requires
        old(handler).inv(),
    ensures
        final(handler).inv(),
        match r {
            Ok(child) => {
                &&& stepped::<PTE>(
                    old(handler).frames(),
                    final(handler).frames(),
                    table,
                    index,
                    child,
                )
                &&& final(handler).frames() == old(handler).frames() ==> create_step::<PTE>(
                    old(handler).frames(),
                    table,
                    index,
                ) == Ok::<Option<usize>, PagingError>(Some(child))
                &&& final(handler).frames() != old(handler).frames() ==> child != 0
                    && table_created::<PTE>(
                    old(handler).frames(),
                    final(handler).frames(),
                    Slot { table, index },
                    child,
                )
            },
            Err(err) => {
                &&& final(handler).frames() == old(handler).frames()
                &&& match create_step::<PTE>(old(handler).frames(), table, index) {
                    Ok(Some(_)) => false,
                    Ok(None) => err == PagingError::NoMemory,
                    Err(e) => err == e,
                }
            },
        },
{
    let ghost before = handler.frames();
    let r = next_table_mut_or_create::<PTE, H>(handler, table, index);
    proof {
        let after = handler.frames();
        handler.lemma_inv();
        match r {
            Ok(child) => {
                if create_step::<PTE>(before, table, index) == Ok::<Option<usize>, PagingError>(
                    None,
                ) {
                    assert(after.contains_key(child));
                    lemma_table_created::<PTE>(before, after, Slot { table, index }, child);
                    assert(after != before);
                } else {
                    assert(after == before);
                }
            },
            Err(_) => {},
        }
    }
    r
}

/// What a step of the creating walk does to the tables that a tree owns:
/// `kept` are the owned tables before and `now` after, and `child` is the
/// table that the step came to.
///
/// A table that was made is owned from now, if it hangs at a slot of an
/// owned table that is not on loan. A well formed tree stays well formed, as
/// long as table descriptors can point to all the frames. From an owned
/// table the step comes to an owned table of the next level, and the tree
/// owns what it owned and the frame that was made.
pub open spec fn step_owned_outcome<PTE: GenericPTE>(
    before: Map<usize, Seq<u64>>,
    after: Map<usize, Seq<u64>>,
    root: usize,
    levels: usize,
    borrowed: Set<usize>,
    kept: Map<usize, TableNode>,
    now: Map<usize, TableNode>,
    slot: Slot,
    child: usize,
) -> bool {
    &&& now == if after != before {
        grown(root, levels, borrowed, kept, slot, child)
    } else {
        kept
    }
    &&& tree_wf::<PTE>(before, root, levels, borrowed, kept) && frames_fit::<PTE>(after) ==> {
        &&& tree_wf::<PTE>(after, root, levels, borrowed, now)
        &&& kept.contains_key(slot.table) && kept[slot.table].level + 1 < levels && !on_loan(
            root,
            borrowed,
            slot.table,
            slot.index,
        ) ==> {
            &&& now.contains_key(child)
            &&& now[child].level == kept[slot.table].level + 1
            &&& child != root
            &&& now.dom() =~= kept.dom().union(after.dom().difference(before.dom()))
        }
    }
}

/// The index that a table of the level `k` has for `vaddr`, where the tables
/// of 4K pages have the level 1 and the root table of a tree of four levels
/// has the level 4.
pub open spec fn spec_index_at(vaddr: usize, k: nat) -> usize {
    if k >= 4 {
        spec_p4_index(vaddr)
    } else if k == 3 {
        spec_p3_index(vaddr)
    } else if k == 2 {
        spec_p2_index(vaddr)
    } else {
        spec_p1_index(vaddr)
    }
}

/// The level of the tables whose descriptors map pages of `size`.
pub open spec fn spec_level_for(size: PageSize) -> nat {
    match size {
        PageSize::Size1G => 3,
        PageSize::Size2M => 2,
        _ => 1,
    }
}

/// The slot at `index` of `table`, or `NotMapped` where the frame is missing.
pub open spec fn spec_slot_found<PTE: GenericPTE>(
    frames: Map<usize, Seq<u64>>,
    table: usize,
    index: usize,
) -> Result<Slot, PagingError> {
    match entry_at::<PTE>(frames, table, index) {
        Some(_) => Ok(Slot { table, index }),
        None => Err(PagingError::NotMapped),
    }
}

/// What one step down of a creating walk does, exactly: at a descriptor
/// that points to a table the step comes to that table and changes nothing;
/// at an unused descriptor it makes a table as [`table_created`] says, or
/// runs out of memory and changes nothing; at any other it fails as
/// [`create_step`] says and changes nothing.
#[verifier::opaque]
pub open spec fn step_made<PTE: GenericPTE>(
    before: Map<usize, Seq<u64>>,
    after: Map<usize, Seq<u64>>,
    table: usize,
    index: usize,
    r: Result<usize, PagingError>,
) -> bool {
    match create_step::<PTE>(before, table, index) {
        Ok(Some(t)) => r == Ok::<usize, PagingError>(t) && after == before,
        Ok(None) => match r {
            Ok(child) => child != 0 && table_created::<PTE>(
                before,
                after,
                Slot { table, index },
                child,
            ),
            Err(err) => err == PagingError::NoMemory && after == before,
        },
        Err(err) => r == Err::<usize, PagingError>(err) && after == before,
    }
}

/// What a creating walk does, exactly: from `table`, a table of the level
/// `k`, it steps down as [`step_made`] says until it is at a table of the
/// level `target`, and ends there at the slot for `vaddr`, or at the first
/// step that fails. `after` are the frames that the steps leave, and `r` is
/// the slot or the failure.
#[verifier::opaque]
pub open spec fn walk_made<PTE: GenericPTE>(
    before: Map<usize, Seq<u64>>,
    after: Map<usize, Seq<u64>>,
    table: usize,
    k: nat,
    target: nat,
    vaddr: usize,
    r: Result<Slot, PagingError>,
) -> bool
    decreases k,
{
    if k <= target {
        after == before && r == spec_slot_found::<PTE>(before, table, spec_index_at(vaddr, k))
    } else {
        exists|mid: Map<usize, Seq<u64>>, down: Result<usize, PagingError>|
            {
                &&& #[trigger] step_made::<PTE>(before, mid, table, spec_index_at(vaddr, k), down)
                &&& match down {
                    Ok(child) => walk_made::<PTE>(
                        mid,
                        after,
                        child,
                        (k - 1) as nat,
                        target,
                        vaddr,
                        r,
                    ),
                    Err(err) => after == mid && r == Err::<Slot, PagingError>(err),
                }
            }
    }
}

/// At a table of the level that it is for, a creating walk ends at the slot.
pub proof fn lemma_walk_made_end<PTE: GenericPTE>(
    frames: Map<usize, Seq<u64>>,
    table: usize,
    k: nat,
    vaddr: usize,
)
    ensures
        walk_made::<PTE>(
            frames,
            frames,
            table,
            k,
            k,
            vaddr,
            spec_slot_found::<PTE>(frames, table, spec_index_at(vaddr, k)),
        ),
{
    reveal_with_fuel(walk_made, 1);
}

/// A step down and the walk from where it came to make a walk.
pub proof fn lemma_walk_made_step<PTE: GenericPTE>(
    before: Map<usize, Seq<u64>>,
    mid: Map<usize, Seq<u64>>,
    after: Map<usize, Seq<u64>>,
    table: usize,
    k: nat,
    target: nat,
    vaddr: usize,
    r: Result<Slot, PagingError>,
    down: Result<usize, PagingError>,
)
    requires
        k > target,
        step_made::<PTE>(before, mid, table, spec_index_at(vaddr, k), down),
        match down {
            Ok(child) => walk_made::<PTE>(mid, after, child, (k - 1) as nat, target, vaddr, r),
            Err(err) => after == mid && r == Err::<Slot, PagingError>(err),
        },
    ensures
        walk_made::<PTE>(before, after, table, k, target, vaddr, r),
{
    reveal_with_fuel(walk_made, 1);
}

/// A creating walk takes no frame away and makes at most one table for each
/// level that it steps down.
pub proof fn lemma_walk_made_frames<PTE: GenericPTE>(
    before: Map<usize, Seq<u64>>,
    after: Map<usize, Seq<u64>>,
    table: usize,
    k: nat,
    target: nat,
    vaddr: usize,
    r: Result<Slot, PagingError>,
)
    requires
        walk_made::<PTE>(before, after, table, k, target, vaddr, r),
    ensures
        before.dom().subset_of(after.dom()),
        after.dom().difference(before.dom()).finite(),
        k <= target ==> after.dom().difference(before.dom()).len() == 0,
        k > target ==> after.dom().difference(before.dom()).len() <= k - target,
    decreases k,
{
    reveal_with_fuel(walk_made, 1);
    if k <= target {
        assert(after.dom().difference(before.dom()) =~= Set::<usize>::empty());
    } else {
        let index = spec_index_at(vaddr, k);
        let (mid, down) = choose|mid: Map<usize, Seq<u64>>, down: Result<usize, PagingError>|
            {
                &&& #[trigger] step_made::<PTE>(before, mid, table, index, down)
                &&& match down {
                    Ok(child) => walk_made::<PTE>(
                        mid,
                        after,
                        child,
                        (k - 1) as nat,
                        target,
                        vaddr,
                        r,
                    ),
                    Err(err) => after == mid && r == Err::<Slot, PagingError>(err),
                }
            };
        reveal(step_made);
        let made = mid.dom().difference(before.dom());
        assert(before.dom().subset_of(mid.dom()) && made.finite() && made.len() <= 1) by {
            if mid == before {
                assert(made =~= Set::<usize>::empty());
            } else {
                let child = down.unwrap();
                assert(entry_at::<PTE>(before, table, index) is Some);
                assert(mid.dom() =~= before.dom().insert(child));
                assert(made =~= set![child]);
            }
        }
        match down {
            Ok(child) => {
                lemma_walk_made_frames::<PTE>(mid, after, child, (k - 1) as nat, target, vaddr, r);
                let rest = after.dom().difference(mid.dom());
                let all = after.dom().difference(before.dom());
                assert(all =~= rest.union(made));
                vstd::set_lib::lemma_set_union_finite_iff(rest, made);
                vstd::set_lib::lemma_len_union(rest, made);
            },
            Err(_) => {},
        }
    }
}

/// Steps down as [`step_down`] does, and keeps track of the tables that the
/// tree owns.
#[verifier::rlimit(50)]
pub fn step_owned<PTE: GenericPTE, H: PagingHandler>(
    handler: &mut H,
    table: usize,
    index: usize,
    Ghost(root): Ghost<usize>,
    Ghost(levels): Ghost<usize>,
    Ghost(borrowed): Ghost<Set<usize>>,
    nodes: &mut Ghost<Map<usize, TableNode>>,
) -> (r: Result<usize, PagingError>)
    requires
        old(handler).inv(),
        index < ENTRY_COUNT,
    ensures
        final(handler).inv(),
        step_made::<PTE>(old(handler).frames(), final(handler).frames(), table, index, r),
        match r {
            Ok(child) => {
                &&& stepped::<PTE>(
                    old(handler).frames(),
                    final(handler).frames(),
                    table,
                    index,
                    child,
                )
                &&& final(handler).frames() == old(handler).frames() ==> create_step::<PTE>(
                    old(handler).frames(),
                    table,
                    index,
                ) == Ok::<Option<usize>, PagingError>(Some(child))
                &&& step_owned_outcome::<PTE>(
                    old(handler).frames(),
                    final(handler).frames(),
                    root,
                    levels,
                    borrowed,
                    old(nodes)@,
                    final(nodes)@,
                    Slot { table, index },
                    child,
                )
            },
            Err(err) => {
                &&& final(handler).frames() == old(handler).frames()
                &&& final(nodes)@ == old(nodes)@
                &&& match create_step::<PTE>(old(handler).frames(), table, index) {
                    Ok(Some(_)) => false,
                    Ok(None) => err == PagingError::NoMemory,
                    Err(e) => err == e,
                }
            },
        },
{
    let ghost before = handler.frames();
    let r = step_down::<PTE, H>(handler, table, index);
    proof {
        reveal(step_made);
        let after = handler.frames();
        let kept = nodes@;
        match r {
            Ok(child) => {
                let slot = Slot { table, index };
                if after != before {
                    *nodes.borrow_mut() = grown(root, levels, borrowed, kept, slot, child);
                    if tree_wf::<PTE>(before, root, levels, borrowed, kept) && frames_fit::<PTE>(
                        after,
                    ) {
                        assert(after.contains_key(child));
                        lemma_created_wf::<PTE>(
                            before,
                            after,
                            root,
                            levels,
                            borrowed,
                            kept,
                            slot,
                            child,
                        );
                        assert(kept.contains_key(root));
                        if kept.contains_key(table) && kept[table].level + 1 < levels && !on_loan(
                            root,
                            borrowed,
                            table,
                            index,
                        ) {
                            assert(after.dom().difference(before.dom()) =~= set![child]);
                            assert(nodes@.dom() =~= kept.dom().insert(child));
                        }
                    }
                } else {
                    if tree_wf::<PTE>(before, root, levels, borrowed, kept) && kept.contains_key(
                        table,
                    ) && kept[table].level + 1 < levels && !on_loan(
                        root,
                        borrowed,
                        table,
                        index,
                    ) {
                        assert(child_table::<PTE>(before, table, index) is Ok);
                        assert(after.dom().difference(before.dom()) =~= Set::<usize>::empty());
                        assert(crate::owned64::node_ok::<PTE>(
                            before,
                            root,
                            levels,
                            borrowed,
                            kept,
                            child,
                        ));
                    }
                }
            },
            Err(_) => {},
        }
    }
    r
}

/// The walk of a lookup ends at `slot` once a descriptor `entry` for a page
/// of `size` is written there, where the creating walk has `slot` for its
/// target and the descriptor that was there was unused.
pub proof fn lemma_leaf_written<PTE: GenericPTE>(
    before: Map<usize, Seq<u64>>,
    root: usize,
    levels: usize,
    vaddr: usize,
    size: PageSize,
    slot: Slot,
    entry: PTE,
)
    requires
        levels == 3 || levels == 4,
        size != PageSize::Size1M,
        target_slot::<PTE>(before, root, levels, vaddr, size) == Ok::<Option<Slot>, PagingError>(
            Some(slot),
        ),
        entry_at::<PTE>(before, slot.table, slot.index).unwrap().spec_is_unused(),
        size == PageSize::Size4K || entry.spec_is_huge(),
    ensures
        locate::<PTE>(write_slot(before, slot, entry.spec_raw()), root, levels, vaddr) == Ok::<
            (Slot, PageSize),
            PagingError,
        >((slot, size)),
        entry_at::<PTE>(write_slot(before, slot, entry.spec_raw()), slot.table, slot.index)
            == Some(entry),
        only_unused_changed::<PTE>(before, write_slot(before, slot, entry.spec_raw())),
{
    let after = write_slot(before, slot, entry.spec_raw());
    lemma_in_use::<PTE>();
    PTE::lemma_raw(entry);
    assert forall|t: usize, i: usize|
        #![trigger entry_at::<PTE>(before, t, i)]
        #![trigger entry_at::<PTE>(after, t, i)]
        true implies match entry_at::<PTE>(before, t, i) {
        Some(x) => x.spec_is_unused() || entry_at::<PTE>(after, t, i) == Some(x),
        None => true,
    } by {
        if entry_at::<PTE>(before, t, i) is Some && t == slot.table && i != slot.index {
            assert(after[t][i as int] == before[t][i as int]);
        }
    }
    let i4 = spec_p4_index(vaddr);
    let i3 = spec_p3_index(vaddr);
    let i2 = spec_p2_index(vaddr);
    let i1 = spec_p1_index(vaddr);
    let p3 = if levels == 3 {
        root
    } else {
        create_step::<PTE>(before, root, i4).unwrap().unwrap()
    };
    if levels == 4 {
        assert(entry_at::<PTE>(after, root, i4) == entry_at::<PTE>(before, root, i4));
    }
    assert(top_table::<PTE>(after, root, levels, vaddr) == Ok::<usize, PagingError>(p3));
    if size != PageSize::Size1G {
        assert(entry_at::<PTE>(after, p3, i3) == entry_at::<PTE>(before, p3, i3));
        let p2 = create_step::<PTE>(before, p3, i3).unwrap().unwrap();
        if size != PageSize::Size2M {
            assert(entry_at::<PTE>(after, p2, i2) == entry_at::<PTE>(before, p2, i2));
        }
    }
}

/// How far the creating walk has come with the tables that the tree owns:
/// `kept` were owned at the start and `now` are owned, and the walk stands at
/// `table`, which is `depth` levels below the root.
///
/// If the tree was well formed at the start, and table descriptors can point
/// to all the frames, the tree is well formed. If moreover the slot of the
/// root table for `vaddr` is not on loan, the walk stands at an owned table
/// of that level, and the tree owns what it owned and the frames that were
/// made.
pub open spec fn walk_owned<PTE: GenericPTE>(
    start: Map<usize, Seq<u64>>,
    frames: Map<usize, Seq<u64>>,
    root: usize,
    levels: usize,
    borrowed: Set<usize>,
    kept: Map<usize, TableNode>,
    now: Map<usize, TableNode>,
    vaddr: usize,
    table: usize,
    depth: nat,
) -> bool {
    tree_wf::<PTE>(start, root, levels, borrowed, kept) && frames_fit::<PTE>(frames) ==> {
        &&& tree_wf::<PTE>(frames, root, levels, borrowed, now)
        &&& !borrowed.contains(spec_root_index(vaddr, levels)) ==> {
            &&& now.contains_key(table)
            &&& now[table].level == depth
            &&& depth > 0 ==> table != root
            &&& now.dom() =~= kept.dom().union(frames.dom().difference(start.dom()))
        }
    }
}

/// The creating walk goes on with the tables that the tree owns after a
/// step down from `table` to `child`.
pub proof fn lemma_walk_owned_step<PTE: GenericPTE>(
    start: Map<usize, Seq<u64>>,
    before: Map<usize, Seq<u64>>,
    after: Map<usize, Seq<u64>>,
    root: usize,
    levels: usize,
    borrowed: Set<usize>,
    kept: Map<usize, TableNode>,
    then: Map<usize, TableNode>,
    now: Map<usize, TableNode>,
    vaddr: usize,
    table: usize,
    index: usize,
    child: usize,
    depth: nat,
)
    requires
        walk_owned::<PTE>(start, before, root, levels, borrowed, kept, then, vaddr, table, depth),
        step_owned_outcome::<PTE>(
            before,
            after,
            root,
            levels,
            borrowed,
            then,
            now,
            Slot { table, index },
            child,
        ),
        start.dom().subset_of(before.dom()),
        before.dom().subset_of(after.dom()),
        depth + 1 < levels,
        depth == 0 ==> table == root && index == spec_root_index(vaddr, levels),
    ensures
        walk_owned::<PTE>(
            start,
            after,
            root,
            levels,
            borrowed,
            kept,
            now,
            vaddr,
            child,
            depth + 1,
        ),
{
    if tree_wf::<PTE>(start, root, levels, borrowed, kept) && frames_fit::<PTE>(after) {
        crate::region64::lemma_fit_subset::<PTE>(before, after);
        if !borrowed.contains(spec_root_index(vaddr, levels)) {
            assert(now.dom() =~= kept.dom().union(after.dom().difference(start.dom()))) by {
                assert(then.dom() =~= kept.dom().union(before.dom().difference(start.dom())));
                assert(now.dom() =~= then.dom().union(after.dom().difference(before.dom())));
                assert forall|f: usize| then.contains_key(f) implies before.contains_key(f) by {
                    assert(crate::owned64::node_ok::<PTE>(
                        before,
                        root,
                        levels,
                        borrowed,
                        then,
                        f,
                    ));
                }
            }
        }
    }
}

/// Walks from `root` to the slot for a page of `page_size` at `vaddr`, and
/// makes the tables that are missing on the way.
#[verifier::rlimit(50)]
pub fn get_entry_mut_or_create<PTE: GenericPTE, H: PagingHandler>(
    handler: &mut H,
    root: usize,
    levels: usize,
    vaddr: usize,
    page_size: PageSize,
    Ghost(borrowed): Ghost<Set<usize>>,
    nodes: &mut Ghost<Map<usize, TableNode>>,
) -> (r: Result<Slot, PagingError>)
    requires
        old(handler).inv(),
        levels == 3 || levels == 4,
        page_size != PageSize::Size1M,
    ensures
        final(handler).inv(),
        walk_made::<PTE>(
            old(handler).frames(),
            final(handler).frames(),
            root,
            levels as nat,
            spec_level_for(page_size),
            vaddr,
            r,
        ),
        only_unused_changed::<PTE>(old(handler).frames(), final(handler).frames()),
        old(handler).frames().dom().subset_of(final(handler).frames().dom()),
        match target_slot::<PTE>(old(handler).frames(), root, levels, vaddr, page_size) {
            Ok(Some(slot)) => r == Ok::<Slot, PagingError>(slot) && final(handler).frames() == old(handler).frames(),
            Ok(None) => match r {
                Ok(slot) => entry_at::<PTE>(
                    final(handler).frames(),
                    slot.table,
                    slot.index,
                ) == Some(PTE::spec_from_raw(0)),
                Err(err) => err == PagingError::NoMemory,
            },
            Err(err) => r == Err::<Slot, PagingError>(err) && final(handler).frames() == old(handler).frames(),
        },
        match r {
            Ok(slot) => {
                &&& slot.index < ENTRY_COUNT
                &&& entry_at::<PTE>(final(handler).frames(), slot.table, slot.index) is Some
                &&& frames_fit::<PTE>(final(handler).frames()) ==> target_slot::<PTE>(
                    final(handler).frames(),
                    root,
                    levels,
                    vaddr,
                    page_size,
                ) == Ok::<Option<Slot>, PagingError>(Some(slot))
                &&& walk_owned::<PTE>(
                    old(handler).frames(),
                    final(handler).frames(),
                    root,
                    levels,
                    borrowed,
                    old(nodes)@,
                    final(nodes)@,
                    vaddr,
                    slot.table,
                    level_of(page_size, levels),
                )
            },
            Err(_) => exists|table: usize, depth: nat| #[trigger]
                walk_owned::<PTE>(
                    old(handler).frames(),
                    final(handler).frames(),
                    root,
                    levels,
                    borrowed,
                    old(nodes)@,
                    final(nodes)@,
                    vaddr,
                    table,
                    depth,
                ),
        },
{
    let ghost f0 = handler.frames();
    let ghost n0 = nodes@;
    proof {
        lemma_in_use::<PTE>();
        PTE::lemma_zero();
        PTE::lemma_raw(PTE::spec_from_raw(0));
        lemma_indices();
    }
    let i4: usize = p4_index(vaddr);
    let i3: usize = p3_index(vaddr);
    let i2: usize = p2_index(vaddr);
    let i1: usize = p1_index(vaddr);
    let ghost target = spec_level_for(page_size);
    assert(walk_owned::<PTE>(f0, f0, root, levels, borrowed, n0, n0, vaddr, root, 0)) by {
        assert(f0.dom().difference(f0.dom()) =~= Set::<usize>::empty());
        assert(n0.dom() =~= n0.dom().union(Set::<usize>::empty()));
    }
    let p3: usize = if levels == 3 {
        root
    } else {
        match step_owned::<PTE, H>(
            handler,
            root,
            i4,
            Ghost(root),
            Ghost(levels),
            Ghost(borrowed),
            nodes,
        ) {
            Ok(t) => {
                proof {
                    lemma_walk_owned_step::<PTE>(
                        f0,
                        f0,
                        handler.frames(),
                        root,
                        levels,
                        borrowed,
                        n0,
                        n0,
                        nodes@,
                        vaddr,
                        root,
                        i4,
                        t,
                        0,
                    );
                }
                t
            },
            Err(err) => {
                proof {
                    lemma_walk_made_step::<PTE>(
                        f0,
                        f0,
                        f0,
                        root,
                        4,
                        target,
                        vaddr,
                        Err(err),
                        Err(err),
                    );
                }
                return Err(err);
            },
        }
    };
    let ghost f1 = handler.frames();
    let ghost n1 = nodes@;
    let ghost d3: nat = (levels - 3) as nat;
    assert(walk_owned::<PTE>(f0, f1, root, levels, borrowed, n0, n1, vaddr, p3, d3));
    if page_size == PageSize::Size1G {
        let found: Result<Slot, PagingError> = match read_entry::<PTE, H>(handler, p3, i3) {
            Some(_) => Ok(Slot { table: p3, index: i3 }),
            None => Err(PagingError::NotMapped),
        };
        proof {
            lemma_walk_made_end::<PTE>(f1, p3, 3, vaddr);
            if levels == 4 {
                lemma_walk_made_step::<PTE>(f0, f1, f1, root, 4, 3, vaddr, found, Ok(p3));
            }
        }
        return found;
    }
    let p2: usize = match step_owned::<PTE, H>(
        handler,
        p3,
        i3,
        Ghost(root),
        Ghost(levels),
        Ghost(borrowed),
        nodes,
    ) {
        Ok(t) => t,
        Err(err) => {
            proof {
                lemma_walk_made_step::<PTE>(
                    f1,
                    f1,
                    f1,
                    p3,
                    3,
                    target,
                    vaddr,
                    Err(err),
                    Err(err),
                );
                if levels == 4 {
                    lemma_walk_made_step::<PTE>(
                        f0,
                        f1,
                        f1,
                        root,
                        4,
                        target,
                        vaddr,
                        Err(err),
                        Ok(p3),
                    );
                }
            }
            return Err(err);
        },
    };
    let ghost f2 = handler.frames();
    let ghost n2 = nodes@;
    proof {
        lemma_unused_changed_twice::<PTE>(f0, f1, f2);
        lemma_walk_owned_step::<PTE>(
            f0,
            f1,
            f2,
            root,
            levels,
            borrowed,
            n0,
            n1,
            n2,
            vaddr,
            p3,
            i3,
            p2,
            d3,
        );
    }
    if page_size == PageSize::Size2M {
        let found: Result<Slot, PagingError> = match read_entry::<PTE, H>(handler, p2, i2) {
            Some(_) => Ok(Slot { table: p2, index: i2 }),
            None => Err(PagingError::NotMapped),
        };
        proof {
            lemma_walk_made_end::<PTE>(f2, p2, 2, vaddr);
            lemma_walk_made_step::<PTE>(f1, f2, f2, p3, 3, 2, vaddr, found, Ok(p2));
            if levels == 4 {
                lemma_walk_made_step::<PTE>(f0, f1, f2, root, 4, 2, vaddr, found, Ok(p3));
            }
        }
        return found;
    }
    let p1: usize = match step_owned::<PTE, H>(
        handler,
        p2,
        i2,
        Ghost(root),
        Ghost(levels),
        Ghost(borrowed),
        nodes,
    ) {
        Ok(t) => t,
        Err(err) => {
            proof {
                lemma_walk_made_step::<PTE>(f2, f2, f2, p2, 2, 1, vaddr, Err(err), Err(err));
                lemma_walk_made_step::<PTE>(f1, f2, f2, p3, 3, 1, vaddr, Err(err), Ok(p2));
                if levels == 4 {
                    lemma_walk_made_step::<PTE>(f0, f1, f2, root, 4, 1, vaddr, Err(err), Ok(p3));
                }
            }
            return Err(err);
        },
    };
    let ghost f3 = handler.frames();
    proof {
        lemma_unused_changed_twice::<PTE>(f0, f2, f3);
        lemma_unused_changed_twice::<PTE>(f1, f2, f3);
        lemma_walk_owned_step::<PTE>(
            f0,
            f2,
            f3,
            root,
            levels,
            borrowed,
            n0,
            n2,
            nodes@,
            vaddr,
            p2,
            i2,
            p1,
            d3 + 1,
        );
    }
    let found: Result<Slot, PagingError> = match read_entry::<PTE, H>(handler, p1, i1) {
        Some(_) => Ok(Slot { table: p1, index: i1 }),
        None => Err(PagingError::NotMapped),
    };
    proof {
        lemma_walk_made_end::<PTE>(f3, p1, 1, vaddr);
        lemma_walk_made_step::<PTE>(f2, f3, f3, p2, 2, 1, vaddr, found, Ok(p1));
        lemma_walk_made_step::<PTE>(f1, f2, f3, p3, 3, 1, vaddr, found, Ok(p2));
        if levels == 4 {
            lemma_walk_made_step::<PTE>(f0, f1, f3, root, 4, 1, vaddr, found, Ok(p3));
        }
    }
    found
}

/// The descriptor that maps a page of `size` to the frame that `target` lies
/// in, with the permissions `flags`.
pub open spec fn page_entry<PTE: GenericPTE>(
    target: usize,
    size: PageSize,
    flags: MappingFlags,
) -> PTE {
    PTE::spec_new_page(size.spec_align_down(target), flags, size.spec_is_huge())
}

/// The walk of a lookup for `vaddr` ends at the descriptor `entry`, which
/// maps a page of `size`.
#[verifier::opaque]
pub open spec fn mapped_by<PTE: GenericPTE>(
    frames: Map<usize, Seq<u64>>,
    root: usize,
    levels: usize,
    vaddr: usize,
    entry: PTE,
    size: PageSize,
) -> bool {
    match locate::<PTE>(frames, root, levels, vaddr) {
        Ok((slot, s)) => s == size && entry_at::<PTE>(frames, slot.table, slot.index) == Some(
            entry,
        ),
        Err(_) => false,
    }
}

/// What mapping a page does to the frames, exactly, where `mid` are the
/// frames that the creating walk leaves and `found` is where it ends: the
/// walk is as [`walk_made`] says; at an unused slot the page is written, at
/// a slot in use the call fails with `AlreadyMapped`, and where the walk
/// failed the call fails as the walk did; nothing else changes.
pub open spec fn map_made_by<PTE: GenericPTE>(
    before: Map<usize, Seq<u64>>,
    mid: Map<usize, Seq<u64>>,
    after: Map<usize, Seq<u64>>,
    root: usize,
    levels: usize,
    vaddr: usize,
    page: PTE,
    size: PageSize,
    r: Result<(), PagingError>,
    found: Result<Slot, PagingError>,
) -> bool {
    &&& walk_made::<PTE>(before, mid, root, levels as nat, spec_level_for(size), vaddr, found)
    &&& match found {
        Ok(slot) => match entry_at::<PTE>(mid, slot.table, slot.index) {
            Some(e) => if e.spec_is_unused() {
                r is Ok && after == write_slot(mid, slot, page.spec_raw())
            } else {
                r == Err::<(), PagingError>(PagingError::AlreadyMapped) && after == mid
            },
            None => false,
        },
        Err(err) => r == Err::<(), PagingError>(err) && after == mid,
    }
}

/// What mapping a page does to the frames, exactly: [`map_made_by`], for
/// some frames that the creating walk leaves and some end of it. The tables
/// that are missing on the way are made, each a frame of zero words with one
/// descriptor pointing to it, as far as the handler has memory; then the
/// page is written; and no other word changes.
#[verifier::opaque]
pub open spec fn map_made<PTE: GenericPTE>(
    before: Map<usize, Seq<u64>>,
    after: Map<usize, Seq<u64>>,
    root: usize,
    levels: usize,
    vaddr: usize,
    page: PTE,
    size: PageSize,
    r: Result<(), PagingError>,
) -> bool {
    exists|mid: Map<usize, Seq<u64>>, found: Result<Slot, PagingError>|
        map_made_by::<PTE>(before, mid, after, root, levels, vaddr, page, size, r, found)
}

/// Frames that a creating walk leaves and an end of it show what mapping a
/// page did.
pub proof fn lemma_map_made<PTE: GenericPTE>(
    before: Map<usize, Seq<u64>>,
    mid: Map<usize, Seq<u64>>,
    after: Map<usize, Seq<u64>>,
    root: usize,
    levels: usize,
    vaddr: usize,
    page: PTE,
    size: PageSize,
    r: Result<(), PagingError>,
    found: Result<Slot, PagingError>,
)
    requires
        map_made_by::<PTE>(before, mid, after, root, levels, vaddr, page, size, r, found),
    ensures
        map_made::<PTE>(before, after, root, levels, vaddr, page, size, r),
{
    reveal(map_made);
}

/// Mapping a page takes no frame away and makes at most one table for each
/// level between the root table and the table of the page: at most three
/// for a page of 4K in a tree of four levels, and none for a page of 1G in a
/// tree of three.
pub proof fn lemma_map_made_frames<PTE: GenericPTE>(
    before: Map<usize, Seq<u64>>,
    after: Map<usize, Seq<u64>>,
    root: usize,
    levels: usize,
    vaddr: usize,
    page: PTE,
    size: PageSize,
    r: Result<(), PagingError>,
)
    requires
        levels == 3 || levels == 4,
        map_made::<PTE>(before, after, root, levels, vaddr, page, size, r),
    ensures
        before.dom().subset_of(after.dom()),
        after.dom().difference(before.dom()).finite(),
        after.dom().difference(before.dom()).len() <= levels - spec_level_for(size),
{
    reveal(map_made);
    let (mid, found) = choose|mid: Map<usize, Seq<u64>>, found: Result<Slot, PagingError>|
        map_made_by::<PTE>(before, mid, after, root, levels, vaddr, page, size, r, found);
    lemma_walk_made_frames::<PTE>(
        before,
        mid,
        root,
        levels as nat,
        spec_level_for(size),
        vaddr,
        found,
    );
    assert(after.dom() =~= mid.dom()) by {
        match found {
            Ok(slot) => {
                assert(entry_at::<PTE>(mid, slot.table, slot.index) is Some);
            },
            Err(_) => {},
        }
    }
    assert(after.dom().difference(before.dom()) =~= mid.dom().difference(before.dom()));
}

/// What mapping a page does: `before` and `after` are the frames before and
/// after, `page` is the descriptor to write for a page of `size` at `vaddr`,
/// and `r` is the result.
///
/// Only unused descriptors change and no frame goes away. Where the tables on
/// the way are all there, the page is written if the slot is unused, and
/// else the call fails with `AlreadyMapped` and changes nothing. Where a
/// table is missing, the call succeeds or runs out of memory. Where the way
/// is blocked, the call fails with the error of the walk and changes
/// nothing: a huge page in the way gives `AlreadyMapped`. After a success a
/// lookup of `vaddr` ends at the new descriptor, as long as table
/// descriptors can point to all the frames and the new descriptor is huge
/// exactly when its size is. What the frames are after the call is fixed
/// by [`map_made`].
pub open spec fn map_outcome<PTE: GenericPTE>(
    before: Map<usize, Seq<u64>>,
    after: Map<usize, Seq<u64>>,
    root: usize,
    levels: usize,
    vaddr: usize,
    page: PTE,
    size: PageSize,
    r: Result<(), PagingError>,
) -> bool {
    &&& map_made::<PTE>(before, after, root, levels, vaddr, page, size, r)
    &&& only_unused_changed::<PTE>(before, after)
    &&& before.dom().subset_of(after.dom())
    &&& match target_slot::<PTE>(before, root, levels, vaddr, size) {
        Ok(Some(slot)) => if entry_at::<PTE>(before, slot.table, slot.index).unwrap()
            .spec_is_unused() {
            &&& r is Ok
            &&& after == write_slot(before, slot, page.spec_raw())
        } else {
            &&& r == Err::<(), PagingError>(PagingError::AlreadyMapped)
            &&& after == before
        },
        Ok(None) => r is Ok || r == Err::<(), PagingError>(PagingError::NoMemory),
        Err(err) => r == Err::<(), PagingError>(err) && after == before,
    }
    &&& r == Err::<(), PagingError>(PagingError::NoMemory) ==> target_slot::<PTE>(
        before,
        root,
        levels,
        vaddr,
        size,
    ) == Ok::<Option<Slot>, PagingError>(None)
    &&& r is Ok && frames_fit::<PTE>(after) && (size == PageSize::Size4K || page.spec_is_huge())
        ==> mapped_by::<PTE>(after, root, levels, vaddr, page, size)
}

/// What remapping does: the descriptor that translates `vaddr` gets the
/// address `paddr` and the permissions `flags`, whether it was present or
/// not, and the size of its page is returned. Where the walk fails, its
/// error is returned and nothing changes.
pub open spec fn remap_outcome<PTE: GenericPTE>(
    before: Map<usize, Seq<u64>>,
    after: Map<usize, Seq<u64>>,
    root: usize,
    levels: usize,
    vaddr: usize,
    paddr: usize,
    flags: MappingFlags,
    r: Result<PageSize, PagingError>,
) -> bool {
    match locate::<PTE>(before, root, levels, vaddr) {
        Ok((slot, size)) => {
            &&& r == Ok::<PageSize, PagingError>(size)
            &&& after == write_slot(
                before,
                slot,
                entry_at::<PTE>(before, slot.table, slot.index).unwrap().spec_set_paddr(
                    paddr,
                ).spec_set_flags(flags, size.spec_is_huge()).spec_raw(),
            )
        },
        Err(err) => r == Err::<PageSize, PagingError>(err) && after == before,
    }
}

/// What changing the permissions does: the descriptor that translates
/// `vaddr` gets the permissions `flags` if it is present, and the size of
/// its page is returned. A descriptor that is not present is left alone and
/// the call fails with `NotMapped`. Where the walk fails, its error is
/// returned and nothing changes.
pub open spec fn protect_outcome<PTE: GenericPTE>(
    before: Map<usize, Seq<u64>>,
    after: Map<usize, Seq<u64>>,
    root: usize,
    levels: usize,
    vaddr: usize,
    flags: MappingFlags,
    r: Result<PageSize, PagingError>,
) -> bool {
    match locate::<PTE>(before, root, levels, vaddr) {
        Ok((slot, size)) => if entry_at::<PTE>(before, slot.table, slot.index).unwrap()
            .spec_is_present() {
            &&& r == Ok::<PageSize, PagingError>(size)
            &&& after == write_slot(
                before,
                slot,
                entry_at::<PTE>(before, slot.table, slot.index).unwrap().spec_set_flags(
                    flags,
                    size.spec_is_huge(),
                ).spec_raw(),
            )
        } else {
            &&& r == Err::<PageSize, PagingError>(PagingError::NotMapped)
            &&& after == before
        },
        Err(err) => r == Err::<PageSize, PagingError>(err) && after == before,
    }
}

/// What unmapping does: the descriptor that translates `vaddr` is cleared,
/// and what it held is returned if it was present, `NotMapped` if not. Where
/// the walk fails, its error is returned and nothing changes. Afterwards a
/// query of `vaddr` finds no mapping.
pub open spec fn unmap_outcome<PTE: GenericPTE>(
    before: Map<usize, Seq<u64>>,
    after: Map<usize, Seq<u64>>,
    root: usize,
    levels: usize,
    vaddr: usize,
    r: Result<(usize, MappingFlags, PageSize), PagingError>,
) -> bool {
    &&& match locate::<PTE>(before, root, levels, vaddr) {
        Ok((slot, size)) => {
            let entry = entry_at::<PTE>(before, slot.table, slot.index).unwrap();
            &&& after == write_slot(before, slot, 0)
            &&& r == if entry.spec_is_present() {
                Ok::<(usize, MappingFlags, PageSize), PagingError>(
                    (entry.spec_paddr(), entry.spec_flags(), size),
                )
            } else {
                Err::<(usize, MappingFlags, PageSize), PagingError>(PagingError::NotMapped)
            }
        },
        Err(err) => r == Err::<(usize, MappingFlags, PageSize), PagingError>(err) && after
            == before,
    }
    &&& spec_query::<PTE>(after, root, levels, vaddr) is Err
    &&& r is Ok ==> spec_query::<PTE>(after, root, levels, vaddr) == Err::<
        (usize, MappingFlags, PageSize),
        PagingError,
    >(PagingError::NotMapped)
}

/// Queries the result of the mapping starting at `vaddr`.
pub fn query_page<PTE: GenericPTE, H: PagingHandler>(
    handler: &H,
    root: usize,
    levels: usize,
    vaddr: usize,
) -> (r: Result<(usize, MappingFlags, PageSize), PagingError>)
    requires
        handler.inv(),
        levels == 3 || levels == 4,
    ensures
        r == spec_query::<PTE>(handler.frames(), root, levels, vaddr),
{
    let (_, entry, size) = get_entry::<PTE, H>(handler, root, levels, vaddr)?;
    if !entry.is_present() {
        return Err(PagingError::NotMapped);
    }
    let off: usize = size.align_offset(vaddr);
    Ok((wrapping_sum(entry.paddr(), off), entry.flags(), size))
}

/// What mapping a page does to the tables that a tree owns: `kept` are the
/// owned tables before and `now` after.
///
/// A well formed tree stays well formed, as long as table descriptors can
/// point to all the frames, when the mapping fails, and when it succeeds at
/// an address whose slot of the root table is not on loan, with a descriptor
/// that is no pointer to a table unless it is for a page of 4K. At such an
/// address the tree then owns what it owned and the frames that were made.
pub open spec fn map_owned<PTE: GenericPTE>(
    before: Map<usize, Seq<u64>>,
    after: Map<usize, Seq<u64>>,
    root: usize,
    levels: usize,
    borrowed: Set<usize>,
    kept: Map<usize, TableNode>,
    now: Map<usize, TableNode>,
    vaddr: usize,
    page: PTE,
    size: PageSize,
    r: Result<(), PagingError>,
) -> bool {
    tree_wf::<PTE>(before, root, levels, borrowed, kept) && frames_fit::<PTE>(after) ==> {
        &&& r is Err || (!borrowed.contains(spec_root_index(vaddr, levels)) && (size
            == PageSize::Size4K || spec_next_table(page) is Err)) ==> tree_wf::<PTE>(
            after,
            root,
            levels,
            borrowed,
            now,
        )
        &&& !borrowed.contains(spec_root_index(vaddr, levels)) ==> now.dom() =~= kept.dom().union(
            after.dom().difference(before.dom()),
        )
    }
}

/// Maps the page of `page_size` at `vaddr` to the frame that `target` lies
/// in.
#[verifier::rlimit(50)]
pub fn map_page<PTE: GenericPTE, H: PagingHandler>(
    handler: &mut H,
    root: usize,
    levels: usize,
    vaddr: usize,
    target: usize,
    page_size: PageSize,
    flags: MappingFlags,
    Ghost(borrowed): Ghost<Set<usize>>,
    nodes: &mut Ghost<Map<usize, TableNode>>,
) -> (r: Result<(), PagingError>)
    requires
        old(handler).inv(),
        levels == 3 || levels == 4,
        page_size != PageSize::Size1M,
    ensures
        final(handler).inv(),
        map_outcome::<PTE>(
            old(handler).frames(),
            final(handler).frames(),
            root,
            levels,
            vaddr,
            page_entry::<PTE>(target, page_size, flags),
            page_size,
            r,
        ),
        map_owned::<PTE>(
            old(handler).frames(),
            final(handler).frames(),
            root,
            levels,
            borrowed,
            old(nodes)@,
            final(nodes)@,
            vaddr,
            page_entry::<PTE>(target, page_size, flags),
            page_size,
            r,
        ),
{
    let ghost f0 = handler.frames();
    let ghost n0 = nodes@;
    proof {
        PTE::lemma_zero();
        PTE::lemma_raw(PTE::spec_from_raw(0));
    }
    let slot: Slot = match get_entry_mut_or_create::<PTE, H>(
        handler,
        root,
        levels,
        vaddr,
        page_size,
        Ghost(borrowed),
        nodes,
    ) {
        Ok(slot) => slot,
        Err(err) => {
            proof {
                lemma_map_made::<PTE>(
                    f0,
                    handler.frames(),
                    handler.frames(),
                    root,
                    levels,
                    vaddr,
                    page_entry::<PTE>(target, page_size, flags),
                    page_size,
                    Err(err),
                    Err(err),
                );
            }
            return Err(err);
        },
    };
    let ghost f1 = handler.frames();
    let entry: PTE = match read_entry::<PTE, H>(handler, slot.table, slot.index) {
        Some(e) => e,
        None => { return Err(PagingError::NotMapped); },
    };
    if !entry.is_unused() {
        proof {
            lemma_map_made::<PTE>(
                f0,
                f1,
                f1,
                root,
                levels,
                vaddr,
                page_entry::<PTE>(target, page_size, flags),
                page_size,
                Err(PagingError::AlreadyMapped),
                Ok(slot),
            );
        }
        return Err(PagingError::AlreadyMapped);
    }
    let page: PTE = PTE::new_page(page_size.align_down(target), flags, page_size.is_huge());
    handler.write(slot.table, slot.index, page.raw());
    proof {
        let f2 = handler.frames();
        assert(f2 == write_slot(f1, slot, page.spec_raw()));
        lemma_map_made::<PTE>(f0, f1, f2, root, levels, vaddr, page, page_size, Ok(()), Ok(slot));
        if frames_fit::<PTE>(f2) {
            assert(frames_fit::<PTE>(f1)) by {
                assert forall|p: usize| #[trigger] f1.contains_key(p) implies PTE::spec_holds_table(
                    p,
                ) by {
                    assert(f2.contains_key(p));
                }
            }
            if page_size == PageSize::Size4K || page.spec_is_huge() {
                lemma_leaf_written::<PTE>(f1, root, levels, vaddr, page_size, slot, page);
            }
            if tree_wf::<PTE>(f0, root, levels, borrowed, n0) && !borrowed.contains(
                spec_root_index(vaddr, levels),
            ) {
                assert(f2.dom() =~= f1.dom());
                if page_size == PageSize::Size4K || spec_next_table(page) is Err {
                    lemma_in_use::<PTE>();
                    lemma_written_wf::<PTE>(f1, root, levels, borrowed, nodes@, slot, page);
                }
            }
        }
        reveal(mapped_by);
        lemma_slot_written::<PTE>(f1, slot, page);
        lemma_unused_changed_twice::<PTE>(f0, f1, f2);
        assert(f1.dom().subset_of(f2.dom()));
    }
    Ok(())
}

/// Writing a descriptor to an unused slot leaves the descriptors in use as
/// they were.
pub proof fn lemma_slot_written<PTE: GenericPTE>(
    before: Map<usize, Seq<u64>>,
    slot: Slot,
    entry: PTE,
)
    requires
        entry_at::<PTE>(before, slot.table, slot.index) is Some,
        entry_at::<PTE>(before, slot.table, slot.index).unwrap().spec_is_unused(),
    ensures
        only_unused_changed::<PTE>(before, write_slot(before, slot, entry.spec_raw())),
        entry_at::<PTE>(write_slot(before, slot, entry.spec_raw()), slot.table, slot.index)
            == Some(entry),
        write_slot(before, slot, entry.spec_raw()).dom() =~= before.dom(),
{
    let after = write_slot(before, slot, entry.spec_raw());
    PTE::lemma_raw(entry);
    assert forall|t: usize, i: usize|
        #![trigger entry_at::<PTE>(before, t, i)]
        #![trigger entry_at::<PTE>(after, t, i)]
        true implies match entry_at::<PTE>(before, t, i) {
        Some(x) => x.spec_is_unused() || entry_at::<PTE>(after, t, i) == Some(x),
        None => true,
    } by {
        if entry_at::<PTE>(before, t, i) is Some && t == slot.table && i != slot.index {
            assert(after[t][i as int] == before[t][i as int]);
        }
    }
}

/// Remaps the mapping starting at `vaddr`, updates both the physical address
/// and flags.
pub fn remap_page<PTE: GenericPTE, H: PagingHandler>(
    handler: &mut H,
    root: usize,
    levels: usize,
    vaddr: usize,
    paddr: usize,
    flags: MappingFlags,
) -> (r: Result<PageSize, PagingError>)
    requires
        old(handler).inv(),
        levels == 3 || levels == 4,
    ensures
        final(handler).inv(),
        remap_outcome::<PTE>(
            old(handler).frames(),
            final(handler).frames(),
            root,
            levels,
            vaddr,
            paddr,
            flags,
            r,
        ),
{
    let (slot, entry, size) = get_entry::<PTE, H>(handler, root, levels, vaddr)?;
    let mut entry: PTE = entry;
    entry.set_paddr(paddr);
    entry.set_flags(flags, size.is_huge());
    handler.write(slot.table, slot.index, entry.raw());
    Ok(size)
}

/// Updates the flags of the mapping starting at `vaddr`.
pub fn protect_page<PTE: GenericPTE, H: PagingHandler>(
    handler: &mut H,
    root: usize,
    levels: usize,
    vaddr: usize,
    flags: MappingFlags,
) -> (r: Result<PageSize, PagingError>)
    requires
        old(handler).inv(),
        levels == 3 || levels == 4,
    ensures
        final(handler).inv(),
        protect_outcome::<PTE>(
            old(handler).frames(),
            final(handler).frames(),
            root,
            levels,
            vaddr,
            flags,
            r,
        ),
{
    let (slot, entry, size) = get_entry::<PTE, H>(handler, root, levels, vaddr)?;
    if !entry.is_present() {
        return Err(PagingError::NotMapped);
    }
    let mut entry: PTE = entry;
    entry.set_flags(flags, size.is_huge());
    handler.write(slot.table, slot.index, entry.raw());
    Ok(size)
}

/// Unmaps the mapping starting at `vaddr`.
pub fn unmap_page<PTE: GenericPTE, H: PagingHandler>(
    handler: &mut H,
    root: usize,
    levels: usize,
    vaddr: usize,
) -> (r: Result<(usize, MappingFlags, PageSize), PagingError>)
    requires
        old(handler).inv(),
        levels == 3 || levels == 4,
    ensures
        final(handler).inv(),
        unmap_outcome::<PTE>(
            old(handler).frames(),
            final(handler).frames(),
            root,
            levels,
            vaddr,
            r,
        ),
{
    let ghost f0 = handler.frames();
    let (slot, entry, size) = get_entry::<PTE, H>(handler, root, levels, vaddr)?;
    let mut cleared: PTE = entry;
    cleared.clear();
    handler.write(slot.table, slot.index, cleared.raw());
    proof {
        lemma_cleared::<PTE>(f0, root, levels, vaddr);
    }
    if !entry.is_present() {
        return Err(PagingError::NotMapped);
    }
    Ok((entry.paddr(), entry.flags(), size))
}

/// Once the descriptor that translates `vaddr` is cleared, a query of `vaddr`
/// finds no mapping.
pub proof fn lemma_cleared<PTE: GenericPTE>(
    before: Map<usize, Seq<u64>>,
    root: usize,
    levels: usize,
    vaddr: usize,
)
    requires
        levels == 3 || levels == 4,
        locate::<PTE>(before, root, levels, vaddr) is Ok,
    ensures
        spec_query::<PTE>(
            write_slot(before, locate::<PTE>(before, root, levels, vaddr).unwrap().0, 0),
            root,
            levels,
            vaddr,
        ) == Err::<(usize, MappingFlags, PageSize), PagingError>(PagingError::NotMapped),
{
    let slot = locate::<PTE>(before, root, levels, vaddr).unwrap().0;
    let after = write_slot(before, slot, 0);
    PTE::lemma_zero();
    let i4 = spec_p4_index(vaddr);
    let i3 = spec_p3_index(vaddr);
    let i2 = spec_p2_index(vaddr);
    let i1 = spec_p1_index(vaddr);
    assert forall|t: usize, i: usize| #[trigger] entry_at::<PTE>(before, t, i) is Some implies if t
        == slot.table && i == slot.index {
        entry_at::<PTE>(after, t, i) == Some(PTE::spec_from_raw(0))
    } else {
        entry_at::<PTE>(after, t, i) == entry_at::<PTE>(before, t, i)
    } by {
        if t == slot.table && i != slot.index {
            assert(after[t][i as int] == before[t][i as int]);
        }
    }
    let p3 = top_table::<PTE>(before, root, levels, vaddr).unwrap();
    if levels == 4 {
        assert(entry_at::<PTE>(before, root, i4) is Some);
    }
    assert(entry_at::<PTE>(before, p3, i3) is Some);
    let e3 = entry_at::<PTE>(before, p3, i3).unwrap();
    if !e3.spec_is_huge() {
        let p2 = spec_next_table(e3).unwrap();
        assert(entry_at::<PTE>(before, p2, i2) is Some);
        let e2 = entry_at::<PTE>(before, p2, i2).unwrap();
        if !e2.spec_is_huge() {
            let p1 = spec_next_table(e2).unwrap();
            assert(entry_at::<PTE>(before, p1, i1) is Some);
        }
    }
}

/// The creating walk fails only at a descriptor that points nowhere, with
/// `NotMapped`, or that maps a huge page, with `AlreadyMapped`.
pub proof fn lemma_target_errors<PTE: GenericPTE>(
    frames: Map<usize, Seq<u64>>,
    root: usize,
    levels: usize,
    vaddr: usize,
    size: PageSize,
)
    ensures
        match target_slot::<PTE>(frames, root, levels, vaddr, size) {
            Ok(_) => true,
            Err(err) => err == PagingError::NotMapped || err == PagingError::AlreadyMapped,
        },
{
}

/// What a range edit needs to know of mapping one page: only unused
/// descriptors change, no frame goes away, a success leaves the page mapped
/// by its descriptor, and a failure is never `NotAligned`.
pub open spec fn map_effect<PTE: GenericPTE>(
    before: Map<usize, Seq<u64>>,
    after: Map<usize, Seq<u64>>,
    root: usize,
    levels: usize,
    vaddr: usize,
    page: PTE,
    size: PageSize,
    r: Result<(), PagingError>,
) -> bool {
    &&& only_unused_changed::<PTE>(before, after)
    &&& before.dom().subset_of(after.dom())
    &&& r is Ok && frames_fit::<PTE>(after) && (size == PageSize::Size4K || page.spec_is_huge())
        ==> mapped_by::<PTE>(after, root, levels, vaddr, page, size)
    &&& r != Err::<(), PagingError>(PagingError::NotAligned)
}

/// What [`map_outcome`] says in full holds in short as [`map_effect`].
pub proof fn lemma_map_effect<PTE: GenericPTE>(
    before: Map<usize, Seq<u64>>,
    after: Map<usize, Seq<u64>>,
    root: usize,
    levels: usize,
    vaddr: usize,
    page: PTE,
    size: PageSize,
    r: Result<(), PagingError>,
)
    requires
        map_outcome::<PTE>(before, after, root, levels, vaddr, page, size, r),
    ensures
        map_effect::<PTE>(before, after, root, levels, vaddr, page, size, r),
{
    lemma_target_errors::<PTE>(before, root, levels, vaddr, size);
}

/// Changing the permissions of a page changes only the permissions: after
/// it, a query of the address answers with the frame and the size as before
/// and with the permissions as the descriptor grants them. This holds for
/// some permission and a descriptor whose address a page descriptor of its
/// size can hold.
pub proof fn lemma_protect_then_query<PTE: GenericPTE>(
    before: Map<usize, Seq<u64>>,
    after: Map<usize, Seq<u64>>,
    root: usize,
    levels: usize,
    vaddr: usize,
    flags: MappingFlags,
    size: PageSize,
)
    requires
        levels == 3 || levels == 4,
        protect_outcome::<PTE>(before, after, root, levels, vaddr, flags, Ok(size)),
        !flags.spec_is_empty(),
        spec_query::<PTE>(before, root, levels, vaddr) is Ok,
        PTE::spec_holds_page(
            entry_at::<PTE>(
                before,
                locate::<PTE>(before, root, levels, vaddr).unwrap().0.table,
                locate::<PTE>(before, root, levels, vaddr).unwrap().0.index,
            ).unwrap().spec_paddr(),
            size.spec_is_huge(),
        ),
    ensures
        spec_query::<PTE>(after, root, levels, vaddr) == Ok::<
            (usize, MappingFlags, PageSize),
            PagingError,
        >(
            (
                spec_query::<PTE>(before, root, levels, vaddr).unwrap().0,
                PTE::spec_new_page(0, flags, false).spec_flags(),
                size,
            ),
        ),
{
    let (slot, found) = locate::<PTE>(before, root, levels, vaddr).unwrap();
    let old = entry_at::<PTE>(before, slot.table, slot.index).unwrap();
    let entry = old.spec_set_flags(flags, size.spec_is_huge());
    lemma_in_use::<PTE>();
    PTE::lemma_set_flags(old, flags, size.spec_is_huge());
    PTE::lemma_raw(entry);
    PTE::lemma_present(entry);
    lemma_indices();
    let i4 = spec_p4_index(vaddr);
    let i3 = spec_p3_index(vaddr);
    let i2 = spec_p2_index(vaddr);
    let i1 = spec_p1_index(vaddr);
    assert forall|t: usize, i: usize| #[trigger]
        entry_at::<PTE>(before, t, i) is Some implies entry_at::<PTE>(after, t, i) == if t
        == slot.table && i == slot.index {
        Some(entry)
    } else {
        entry_at::<PTE>(before, t, i)
    } by {
        if t == slot.table && i != slot.index {
            assert(after[t][i as int] == before[t][i as int]);
        }
    }
    {
        let p3 = top_table::<PTE>(before, root, levels, vaddr).unwrap();
        if levels == 4 {
            assert(entry_at::<PTE>(before, root, i4) is Some);
        }
        assert(top_table::<PTE>(after, root, levels, vaddr) == Ok::<usize, PagingError>(p3));
        assert(entry_at::<PTE>(before, p3, i3) is Some);
        let e3 = entry_at::<PTE>(before, p3, i3).unwrap();
        if !e3.spec_is_huge() {
            let p2 = spec_next_table(e3).unwrap();
            assert(entry_at::<PTE>(before, p2, i2) is Some);
            let e2 = entry_at::<PTE>(before, p2, i2).unwrap();
            if !e2.spec_is_huge() {
                let p1 = spec_next_table(e2).unwrap();
                assert(entry_at::<PTE>(before, p1, i1) is Some);
            }
        }
        assert(locate::<PTE>(after, root, levels, vaddr) == Ok::<(Slot, PageSize), PagingError>(
            (slot, size),
        ));
    }
}

/// The translation of an address that a descriptor maps is what the
/// descriptor says.
pub proof fn lemma_mapped_by_query<PTE: GenericPTE>(
    frames: Map<usize, Seq<u64>>,
    root: usize,
    levels: usize,
    vaddr: usize,
    entry: PTE,
    size: PageSize,
)
    requires
        mapped_by::<PTE>(frames, root, levels, vaddr, entry, size),
    ensures
        spec_query::<PTE>(frames, root, levels, vaddr) == translation(entry, size, vaddr),
{
    reveal(mapped_by);
}

/// The frames after the page at `vaddr` is unmapped: the descriptor that
/// translates `vaddr` is cleared, if the walk finds one.
#[verifier::opaque]
pub open spec fn spec_unmap_frames<PTE: GenericPTE>(
    frames: Map<usize, Seq<u64>>,
    root: usize,
    levels: usize,
    vaddr: usize,
) -> Map<usize, Seq<u64>> {
    match locate::<PTE>(frames, root, levels, vaddr) {
        Ok((slot, _)) => write_slot(frames, slot, 0),
        Err(_) => frames,
    }
}

/// What unmapping the page at `vaddr` returns.
#[verifier::opaque]
pub open spec fn spec_unmap_result<PTE: GenericPTE>(
    frames: Map<usize, Seq<u64>>,
    root: usize,
    levels: usize,
    vaddr: usize,
) -> Result<(usize, MappingFlags, PageSize), PagingError> {
    match locate::<PTE>(frames, root, levels, vaddr) {
        Ok((slot, size)) => {
            let entry = entry_at::<PTE>(frames, slot.table, slot.index).unwrap();
            if entry.spec_is_present() {
                Ok((entry.spec_paddr(), entry.spec_flags(), size))
            } else {
                Err(PagingError::NotMapped)
            }
        },
        Err(err) => Err(err),
    }
}

/// The frames after the permissions of the page at `vaddr` are set to
/// `flags`: the descriptor that translates `vaddr` is changed, if the walk
/// finds one that is present.
#[verifier::opaque]
pub open spec fn spec_protect_frames<PTE: GenericPTE>(
    frames: Map<usize, Seq<u64>>,
    root: usize,
    levels: usize,
    vaddr: usize,
    flags: MappingFlags,
) -> Map<usize, Seq<u64>> {
    match locate::<PTE>(frames, root, levels, vaddr) {
        Ok((slot, size)) => {
            let entry = entry_at::<PTE>(frames, slot.table, slot.index).unwrap();
            if entry.spec_is_present() {
                write_slot(
                    frames,
                    slot,
                    entry.spec_set_flags(flags, size.spec_is_huge()).spec_raw(),
                )
            } else {
                frames
            }
        },
        Err(_) => frames,
    }
}

/// What setting the permissions of the page at `vaddr` returns.
#[verifier::opaque]
pub open spec fn spec_protect_result<PTE: GenericPTE>(
    frames: Map<usize, Seq<u64>>,
    root: usize,
    levels: usize,
    vaddr: usize,
) -> Result<PageSize, PagingError> {
    match locate::<PTE>(frames, root, levels, vaddr) {
        Ok((slot, size)) => {
            if entry_at::<PTE>(frames, slot.table, slot.index).unwrap().spec_is_present() {
                Ok(size)
            } else {
                Err(PagingError::NotMapped)
            }
        },
        Err(err) => Err(err),
    }
}

/// `after` holds some of the frames of `before`, each with its words
/// unchanged, and no others.
pub open spec fn frames_freed(before: Map<usize, Seq<u64>>, after: Map<usize, Seq<u64>>) -> bool {
    &&& after.dom().subset_of(before.dom())
    &&& forall|p: usize| #[trigger] after.contains_key(p) ==> after[p] == before[p]
}

/// What makes the tables from `table` downwards free to go: the tree was
/// well formed when the frames were `snapshot`, it owns `table` at `level`
/// below the root, and the tables from `table` downwards are in `frames` as
/// they were in `snapshot`.
pub open spec fn freeable<PTE: GenericPTE>(
    frames: Map<usize, Seq<u64>>,
    snapshot: Map<usize, Seq<u64>>,
    root: usize,
    levels: usize,
    borrowed: Set<usize>,
    nodes: Map<usize, TableNode>,
    table: usize,
    level: usize,
) -> bool {
    &&& tree_wf::<PTE>(snapshot, root, levels, borrowed, nodes)
    &&& frames_well_formed(snapshot)
    &&& nodes.contains_key(table)
    &&& nodes[table].level == level
    &&& table != root
    &&& intact(frames, snapshot, nodes, table)
}

/// Freeing the tables under one more slot of `table`: the state of the
/// frames after the slot at `index` was dealt with.
pub proof fn lemma_freed_next<PTE: GenericPTE>(
    start: Map<usize, Seq<u64>>,
    before: Map<usize, Seq<u64>>,
    after: Map<usize, Seq<u64>>,
    snapshot: Map<usize, Seq<u64>>,
    root: usize,
    levels: usize,
    borrowed: Set<usize>,
    nodes: Map<usize, TableNode>,
    table: usize,
    index: usize,
)
    requires
        tree_wf::<PTE>(snapshot, root, levels, borrowed, nodes),
        nodes.contains_key(table),
        index < ENTRY_COUNT,
        intact(start, snapshot, nodes, table),
        before == start.remove_keys(below(nodes, table, index)),
        nodes[table].level + 1 < levels && !on_loan(root, borrowed, table, index) && child_table::<
            PTE,
        >(snapshot, table, index) is Ok ==> after == before.remove_keys(
            subtree(nodes, child_table::<PTE>(snapshot, table, index).unwrap()),
        ),
        !(nodes[table].level + 1 < levels && !on_loan(root, borrowed, table, index) && child_table::<
            PTE,
        >(snapshot, table, index) is Ok) ==> after == before,
    ensures
        after == start.remove_keys(below(nodes, table, (index + 1) as usize)),
        nodes[table].level + 1 < levels && !on_loan(root, borrowed, table, index) && child_table::<
            PTE,
        >(snapshot, table, index) is Ok ==> {
            let child = child_table::<PTE>(snapshot, table, index).unwrap();
            &&& nodes.contains_key(child)
            &&& nodes[child].level == nodes[table].level + 1
            &&& child != root
            &&& intact(before, snapshot, nodes, child)
        },
        before.contains_key(table),
        before[table] == snapshot[table],
{
    lemma_below_next::<PTE>(snapshot, root, levels, borrowed, nodes, table, index);
    lemma_typed::<PTE>(snapshot, root, levels, borrowed, nodes);
    assert(crate::owned64::ancestor(nodes, table, 0) == table);
    assert(under(nodes, table, table));
    if nodes[table].level + 1 < levels && !on_loan(root, borrowed, table, index) && child_table::<
        PTE,
    >(snapshot, table, index) is Ok {
        let child = child_table::<PTE>(snapshot, table, index).unwrap();
        assert forall|t: usize| #[trigger] under(nodes, t, child) implies before.contains_key(t)
            && before[t] == snapshot[t] by {
            lemma_under_child(nodes, root, t, child, table);
            assert(subtree(nodes, child).contains(t));
            assert(!below(nodes, table, index).contains(t));
        }
        assert(after =~= start.remove_keys(below(nodes, table, (index + 1) as usize)));
    } else {
        assert(after =~= start.remove_keys(below(nodes, table, (index + 1) as usize)));
    }
}

/// Frees the table at `table_paddr`, which is at `level`, after the tables
/// that its descriptors point to. The tables of the last level hold pages,
/// which belong to the caller, so their descriptors are not followed.
///
/// Where the tree owns the table, exactly the owned tables from it
/// downwards are freed.
#[verifier::rlimit(50)]
pub fn dealloc_tree<PTE: GenericPTE, H: PagingHandler>(
    handler: &mut H,
    levels: usize,
    table_paddr: usize,
    level: usize,
    Ghost(root): Ghost<usize>,
    Ghost(borrowed): Ghost<Set<usize>>,
    Ghost(nodes): Ghost<Map<usize, TableNode>>,
    Ghost(snapshot): Ghost<Map<usize, Seq<u64>>>,
)
    requires
        old(handler).inv(),
        level < levels,
    ensures
        final(handler).inv(),
        frames_freed(old(handler).frames(), final(handler).frames()),
        !final(handler).frames().contains_key(table_paddr),
        freeable::<PTE>(
            old(handler).frames(),
            snapshot,
            root,
            levels,
            borrowed,
            nodes,
            table_paddr,
            level,
        ) ==> final(handler).frames() == old(handler).frames().remove_keys(
            subtree(nodes, table_paddr),
        ),
    decreases levels - level,
{
    let ghost start = handler.frames();
    let ghost owned = freeable::<PTE>(
        start,
        snapshot,
        root,
        levels,
        borrowed,
        nodes,
        table_paddr,
        level,
    );
    proof {
        if owned {
            lemma_below_all::<PTE>(snapshot, root, levels, borrowed, nodes, table_paddr);
            assert(start.remove_keys(below(nodes, table_paddr, 0)) =~= start);
        }
    }
    // don't free the entries in last level, they are not array.
    if level < levels - 1 {
        let mut i: usize = 0;
        while i < ENTRY_COUNT
            invariant
                handler.inv(),
                level < levels - 1,
                i <= ENTRY_COUNT,
                start == old(handler).frames(),
                owned == freeable::<PTE>(
                    start,
                    snapshot,
                    root,
                    levels,
                    borrowed,
                    nodes,
                    table_paddr,
                    level,
                ),
                frames_freed(start, handler.frames()),
                owned ==> handler.frames() == start.remove_keys(below(nodes, table_paddr, i)),
            decreases ENTRY_COUNT - i,
        {
            let ghost before = handler.frames();
            proof {
                if owned {
                    assert(crate::owned64::ancestor(nodes, table_paddr, 0) == table_paddr);
                    assert(under(nodes, table_paddr, table_paddr));
                    assert(!below(nodes, table_paddr, i).contains(table_paddr));
                    assert(before.contains_key(table_paddr));
                    assert(before[table_paddr] == snapshot[table_paddr]);
                    lemma_below_next::<PTE>(
                        snapshot,
                        root,
                        levels,
                        borrowed,
                        nodes,
                        table_paddr,
                        i,
                    );
                }
            }
            match read_entry::<PTE, H>(handler, table_paddr, i) {
                Some(entry) => {
                    match next_table(&entry) {
                        Ok(child) => {
                            proof {
                                if owned {
                                    lemma_freed_next::<PTE>(
                                        start,
                                        before,
                                        before.remove_keys(subtree(nodes, child)),
                                        snapshot,
                                        root,
                                        levels,
                                        borrowed,
                                        nodes,
                                        table_paddr,
                                        i,
                                    );
                                }
                            }
                            dealloc_tree::<PTE, H>(
                                handler,
                                levels,
                                child,
                                level + 1,
                                Ghost(root),
                                Ghost(borrowed),
                                Ghost(nodes),
                                Ghost(snapshot),
                            );
                        },
                        Err(_) => {
                            proof {
                                if owned {
                                    lemma_freed_next::<PTE>(
                                        start,
                                        before,
                                        before,
                                        snapshot,
                                        root,
                                        levels,
                                        borrowed,
                                        nodes,
                                        table_paddr,
                                        i,
                                    );
                                }
                            }
                        },
                    }
                },
                None => {},
            }
            i = i + 1;
        }
    }
    crate::handler::free_frame(handler, table_paddr);
    proof {
        if owned {
            if level < levels - 1 {
                assert(handler.frames() =~= start.remove_keys(subtree(nodes, table_paddr)));
            } else {
                assert(handler.frames() =~= start.remove_keys(subtree(nodes, table_paddr)));
            }
        }
    }
}

/// After a page was mapped, a query of its address answers with the frame
/// that the target lies in, the offset of the address in the page, the
/// permissions as the descriptor grants them, and the size: for every
/// target that a page descriptor can hold, some permission, and frames that
/// table descriptors can point to.
pub proof fn lemma_map_then_query<PTE: GenericPTE>(
    before: Map<usize, Seq<u64>>,
    after: Map<usize, Seq<u64>>,
    root: usize,
    levels: usize,
    vaddr: usize,
    target: usize,
    size: PageSize,
    flags: MappingFlags,
)
    requires
        map_outcome::<PTE>(
            before,
            after,
            root,
            levels,
            vaddr,
            page_entry::<PTE>(target, size, flags),
            size,
            Ok(()),
        ),
        !flags.spec_is_empty(),
        frames_fit::<PTE>(after),
        PTE::spec_holds_page(size.spec_align_down(target), size.spec_is_huge()),
    ensures
        spec_query::<PTE>(after, root, levels, vaddr) == Ok::<
            (usize, MappingFlags, PageSize),
            PagingError,
        >(
            (
                (size.spec_align_down(target) + vaddr % size.spec_bytes()) as usize,
                PTE::spec_new_page(0, flags, false).spec_flags(),
                size,
            ),
        ),
        size.spec_align_down(target) + vaddr % size.spec_bytes() <= usize::MAX,
{
    let base = size.spec_align_down(target);
    PTE::lemma_new_page(base, flags, size.spec_is_huge());
    lemma_mapped_by_query::<PTE>(
        after,
        root,
        levels,
        vaddr,
        page_entry::<PTE>(target, size, flags),
        size,
    );
    crate::lemma_page_fits(target, vaddr, size);
}

} // verus!
