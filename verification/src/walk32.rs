//! The walks of a tree of two levels with descriptors of 32 bits, as ARMv7-A
//! has it in the short-descriptor format, and the edits of a single page.
//!
//! The first level is a table of 4096 descriptors in four frames in a row,
//! each descriptor for a section of 1M or for a table of the second level.
//! A table of the second level holds 256 descriptors of 4K pages in the
//! first quarter of a frame. Two descriptors share a word of a frame, the
//! one with the even index in the low half.

use vstd::prelude::*;
use crate::{PageSize, PagingError};
use crate::entry::{GenericPTE, MappingFlags};
use crate::handler::{frame_word, PagingHandler, FRAME_SIZE};
use crate::owned32::{map_owned, points_to_table, tree_wf, walk_owned};
use crate::walk64::{spec_wrapping_sum, wrapping_sum, zero_frame, zero_words, Slot};

verus! {

/// The number of descriptors in the table of the first level.
pub const L1_ENTRY_COUNT: usize = 4096;

/// The number of descriptors in a table of the second level.
pub const L2_ENTRY_COUNT: usize = 256;

/// The number of descriptors in a frame.
pub const FRAME_ENTRIES: usize = 1024;

/// The index that the table of the first level has for `vaddr`: bits 20..32.
pub open spec fn spec_p1_index(vaddr: usize) -> usize {
    (((vaddr as u64) >> 20) & 0xfff) as usize
}

/// The index that a table of the second level has for `vaddr`: bits 12..20.
pub open spec fn spec_p2_index(vaddr: usize) -> usize {
    (((vaddr as u64) >> 12) & 0xff) as usize
}

/// Extract the L1 (first-level) page table index from a virtual address.
///
/// L1 uses bits[31:20] of the virtual address (12 bits = 4096 entries), and
/// each L1 entry covers 1MB of virtual address space.
pub fn p1_index(vaddr: usize) -> (r: usize)
    ensures
        r == spec_p1_index(vaddr),
        r < L1_ENTRY_COUNT,
{
    let v: u64 = vaddr as u64;
    assert((v >> 20) & 0xfff < 4096) by (bit_vector);
    ((v >> 20) & 0xfff) as usize
}

/// Extract the L2 (second-level) page table index from a virtual address.
///
/// L2 uses bits[19:12] of the virtual address (8 bits = 256 entries), and
/// each L2 entry covers 4KB of virtual address space.
pub fn p2_index(vaddr: usize) -> (r: usize)
    ensures
        r == spec_p2_index(vaddr),
        r < L2_ENTRY_COUNT,
{
    let v: u64 = vaddr as u64;
    assert((v >> 12) & 0xff < 256) by (bit_vector);
    ((v >> 12) & 0xff) as usize
}

/// The half of `word` that holds the descriptor with an index that is odd
/// or even.
pub open spec fn spec_half_of(word: u64, odd: bool) -> u64 {
    if odd {
        word >> 32
    } else {
        word & 0xffff_ffff
    }
}

/// The word `word` with the low 32 bits of `value` in the half for an index
/// that is odd or even.
pub open spec fn spec_with_half(word: u64, odd: bool, value: u64) -> u64 {
    if odd {
        (word & 0xffff_ffff) | ((value & 0xffff_ffff) << 32)
    } else {
        (word & 0xffff_ffff_0000_0000) | (value & 0xffff_ffff)
    }
}

/// What the halves of a word hold after one of them was written.
pub proof fn lemma_halves(word: u64, odd: bool, value: u64)
    ensures
        spec_half_of(spec_with_half(word, odd, value), odd) == value & 0xffff_ffff,
        spec_half_of(spec_with_half(word, odd, value), !odd) == spec_half_of(word, !odd),
        value <= 0xffff_ffff ==> value & 0xffff_ffff == value,
        spec_half_of(0, odd) == 0,
{
    assert(spec_half_of(spec_with_half(word, odd, value), odd) == value & 0xffff_ffff
        && spec_half_of(spec_with_half(word, odd, value), !odd) == spec_half_of(word, !odd) && (
    value <= 0xffff_ffff ==> value & 0xffff_ffff == value) && spec_half_of(0, odd) == 0)
        by (bit_vector);
}

/// The frame that holds the descriptor at `index` of the table at `table`.
pub open spec fn entry_frame(table: usize, index: usize) -> int {
    table + (index / FRAME_ENTRIES) * FRAME_SIZE
}

/// The word of its frame that holds the descriptor at `index` of a table.
pub open spec fn entry_word(index: usize) -> int {
    (index % FRAME_ENTRIES) as int / 2
}

/// The descriptor at `index` of the table at `table`, if the frame is there.
pub open spec fn entry_at<PTE: GenericPTE>(
    frames: Map<usize, Seq<u64>>,
    table: usize,
    index: usize,
) -> Option<PTE> {
    if entry_frame(table, index) <= usize::MAX {
        match frame_word(frames, entry_frame(table, index) as usize, entry_word(index)) {
            Some(w) => Some(PTE::spec_from_raw(spec_half_of(w, index % 2 == 1))),
            None => None,
        }
    } else {
        None
    }
}

/// The frames after the descriptor `raw` is written to `slot`.
pub open spec fn write_slot(frames: Map<usize, Seq<u64>>, slot: Slot, raw: u64) -> Map<
    usize,
    Seq<u64>,
> {
    let frame = entry_frame(slot.table, slot.index) as usize;
    let word = entry_word(slot.index);
    frames.insert(
        frame,
        frames[frame].update(word, spec_with_half(frames[frame][word], slot.index % 2 == 1, raw)),
    )
}

/// Whether two slots are one place in memory.
pub open spec fn same_place(a: Slot, b: Slot) -> bool {
    &&& entry_frame(a.table, a.index) == entry_frame(b.table, b.index)
    &&& a.index % FRAME_ENTRIES == b.index % FRAME_ENTRIES
}

/// Reads the descriptor at `index` of the table at `table`.
pub fn read_entry<PTE: GenericPTE, H: PagingHandler>(handler: &H, table: usize, index: usize) -> (r:
    Option<PTE>)
    requires
        handler.inv(),
        index < L1_ENTRY_COUNT,
    ensures
        r == entry_at::<PTE>(handler.frames(), table, index),
{
    let offset: usize = (index / FRAME_ENTRIES) * FRAME_SIZE;
    if table > usize::MAX - offset {
        return None;
    }
    match handler.read(table + offset, (index % FRAME_ENTRIES) / 2) {
        Some(w) => {
            let half: u64 = if index % 2 == 1 {
                w >> 32
            } else {
                w & 0xffff_ffff
            };
            Some(PTE::from_raw(half))
        },
        None => None,
    }
}

/// Writes the descriptor `entry` at `slot`, where a descriptor was read.
pub fn write_entry<PTE: GenericPTE, H: PagingHandler>(handler: &mut H, slot: Slot, entry: PTE)
    requires
        old(handler).inv(),
        slot.index < L1_ENTRY_COUNT,
        entry_at::<PTE>(old(handler).frames(), slot.table, slot.index) is Some,
    ensures
        final(handler).inv(),
        final(handler).frames() == write_slot(old(handler).frames(), slot, entry.spec_raw()),
{
    let offset: usize = (slot.index / FRAME_ENTRIES) * FRAME_SIZE;
    let frame: usize = slot.table + offset;
    let word: usize = (slot.index % FRAME_ENTRIES) / 2;
    let raw: u64 = entry.raw();
    match handler.read(frame, word) {
        Some(w) => {
            let w2: u64 = if slot.index % 2 == 1 {
                (w & 0xffff_ffff) | ((raw & 0xffff_ffff) << 32)
            } else {
                (w & 0xffff_ffff_0000_0000) | (raw & 0xffff_ffff)
            };
            handler.write(frame, word, w2);
        },
        None => {},
    }
}

/// Two descriptors of one frame share a word and a half of it exactly when
/// their indices in the frame are the same.
pub proof fn lemma_places(i: usize, j: usize)
    ensures
        ((i % FRAME_ENTRIES) / 2 == (j % FRAME_ENTRIES) / 2 && (i % 2 == 1) == (j % 2 == 1)) == (i
            % FRAME_ENTRIES == j % FRAME_ENTRIES),
{
    assert(((i % 1024usize) / 2 == (j % 1024usize) / 2 && (i % 2 == 1) == (j % 2 == 1)) == (i
        % 1024usize == j % 1024usize)) by (bit_vector);
}

/// What a write of the descriptor `entry` to `slot` leaves at every slot:
/// `entry` at the place of `slot`, and what was there at every other place.
#[verifier::rlimit(50)]
pub proof fn lemma_written<PTE: GenericPTE>(frames: Map<usize, Seq<u64>>, slot: Slot, entry: PTE)
    requires
        PTE::spec_short(),
        entry_at::<PTE>(frames, slot.table, slot.index) is Some,
    ensures
        write_slot(frames, slot, entry.spec_raw()).dom() =~= frames.dom(),
        forall|t: usize, i: usize| #[trigger]
            entry_at::<PTE>(write_slot(frames, slot, entry.spec_raw()), t, i) == if same_place(
                Slot { table: t, index: i },
                slot,
            ) {
                Some(entry)
            } else {
                entry_at::<PTE>(frames, t, i)
            },
{
    let after = write_slot(frames, slot, entry.spec_raw());
    let frame = entry_frame(slot.table, slot.index) as usize;
    let word = entry_word(slot.index);
    let odd = slot.index % 2 == 1;
    let old_word = frames[frame][word];
    let new_word = spec_with_half(old_word, odd, entry.spec_raw());
    PTE::lemma_short(entry);
    PTE::lemma_raw(entry);
    lemma_halves(old_word, odd, entry.spec_raw());
    assert(after == frames.insert(frame, frames[frame].update(word, new_word)));
    assert forall|t: usize, i: usize| #[trigger]
        entry_at::<PTE>(after, t, i) == if same_place(Slot { table: t, index: i }, slot) {
            Some(entry)
        } else {
            entry_at::<PTE>(frames, t, i)
        } by {
        lemma_places(i, slot.index);
        if entry_frame(t, i) <= usize::MAX {
            let f = entry_frame(t, i) as usize;
            let w = entry_word(i);
            if f == frame {
                if frames.contains_key(f) && 0 <= w < frames[f].len() {
                    if w == word {
                        assert(after[f][w] == new_word);
                    } else {
                        assert(after[f][w] == frames[f][w]);
                    }
                }
            } else {
                assert(frames.contains_key(f) ==> after[f] == frames[f]);
            }
        }
    }
}

/// Every frame of `frames` lies where a table descriptor can point to.
pub open spec fn frames_fit<PTE: GenericPTE>(frames: Map<usize, Seq<u64>>) -> bool {
    forall|p: usize| #[trigger] frames.contains_key(p) ==> PTE::spec_holds_table(p)
}

/// `after` holds every descriptor of `before` that was in use, unchanged.
/// What differs was unused before, or lies in a frame that `before` did not
/// hold.
pub open spec fn only_unused_changed<PTE: GenericPTE>(
    before: Map<usize, Seq<u64>>,
    after: Map<usize, Seq<u64>>,
) -> bool {
    forall|t: usize, i: usize|
        #![trigger entry_at::<PTE>(before, t, i)]
        #![trigger entry_at::<PTE>(after, t, i)]
        match entry_at::<PTE>(before, t, i) {
            Some(e) => e.spec_is_unused() || entry_at::<PTE>(after, t, i) == Some(e),
            None => true,
        }
}

/// The descriptor that translates `vaddr` in the tree at `root`, and the size
/// of what it maps: the walk of a lookup. An unused descriptor of the first
/// level maps nothing, a huge one maps a section, and any other points to a
/// table of the second level.
pub open spec fn locate<PTE: GenericPTE>(
    frames: Map<usize, Seq<u64>>,
    root: usize,
    vaddr: usize,
) -> Result<(Slot, PageSize), PagingError> {
    match entry_at::<PTE>(frames, root, spec_p1_index(vaddr)) {
        Some(e) => if e.spec_is_unused() {
            Err(PagingError::NotMapped)
        } else if e.spec_is_huge() {
            Ok((Slot { table: root, index: spec_p1_index(vaddr) }, PageSize::Size1M))
        } else {
            match entry_at::<PTE>(frames, e.spec_paddr(), spec_p2_index(vaddr)) {
                Some(_) => Ok(
                    (
                        Slot { table: e.spec_paddr(), index: spec_p2_index(vaddr) },
                        PageSize::Size4K,
                    ),
                ),
                None => Err(PagingError::NotMapped),
            }
        },
        None => Err(PagingError::NotMapped),
    }
}

/// What a query of `vaddr` answers for the descriptor `entry` that maps a
/// page of `size`: the address in the frame that belongs to `vaddr`, the
/// size, and the permissions. An unused descriptor maps nothing.
pub open spec fn translation<PTE: GenericPTE>(entry: PTE, size: PageSize, vaddr: usize) -> Result<
    (usize, PageSize, MappingFlags),
    PagingError,
> {
    if entry.spec_is_unused() {
        Err(PagingError::NotMapped)
    } else {
        Ok(
            (
                spec_wrapping_sum(entry.spec_paddr(), (vaddr % size.spec_bytes()) as usize),
                size,
                entry.spec_flags(),
            ),
        )
    }
}

/// What a query of `vaddr` answers in the tree at `root`.
pub open spec fn spec_query<PTE: GenericPTE>(
    frames: Map<usize, Seq<u64>>,
    root: usize,
    vaddr: usize,
) -> Result<(usize, PageSize, MappingFlags), PagingError> {
    match locate::<PTE>(frames, root, vaddr) {
        Ok((slot, size)) => translation(
            entry_at::<PTE>(frames, slot.table, slot.index).unwrap(),
            size,
            vaddr,
        ),
        Err(err) => Err(err),
    }
}

/// The slot at `index` of `table`, if the frame is there.
pub open spec fn slot_in<PTE: GenericPTE>(
    frames: Map<usize, Seq<u64>>,
    table: usize,
    index: usize,
) -> Result<Option<Slot>, PagingError> {
    match entry_at::<PTE>(frames, table, index) {
        Some(_) => Ok(Some(Slot { table, index })),
        None => Err(PagingError::NotMapped),
    }
}

/// Where a new page of `size` at `vaddr` goes in the tree at `root`:
/// `Ok(Some(slot))` where the slot is there, `Ok(None)` where a table of the
/// second level has to be made first, and the error where a section is in
/// the way or a frame is missing.
pub open spec fn target_slot<PTE: GenericPTE>(
    frames: Map<usize, Seq<u64>>,
    root: usize,
    vaddr: usize,
    size: PageSize,
) -> Result<Option<Slot>, PagingError> {
    if size == PageSize::Size1M {
        slot_in::<PTE>(frames, root, spec_p1_index(vaddr))
    } else {
        match entry_at::<PTE>(frames, root, spec_p1_index(vaddr)) {
            Some(e) => if e.spec_is_unused() {
                Ok(None)
            } else if e.spec_is_huge() {
                Err(PagingError::AlreadyMapped)
            } else {
                slot_in::<PTE>(frames, e.spec_paddr(), spec_p2_index(vaddr))
            },
            None => Err(PagingError::NotMapped),
        }
    }
}

/// The walk of a lookup for `vaddr` ends at the descriptor `entry`, which
/// maps a page of `size`.
#[verifier::opaque]
pub open spec fn mapped_by<PTE: GenericPTE>(
    frames: Map<usize, Seq<u64>>,
    root: usize,
    vaddr: usize,
    entry: PTE,
    size: PageSize,
) -> bool {
    match locate::<PTE>(frames, root, vaddr) {
        Ok((slot, s)) => s == size && entry_at::<PTE>(frames, slot.table, slot.index) == Some(
            entry,
        ),
        Err(_) => false,
    }
}

/// The descriptor that maps a page of `size` to the frame that `target` lies
/// in, with the permissions `flags`.
pub open spec fn page_entry<PTE: GenericPTE>(
    target: usize,
    size: PageSize,
    flags: MappingFlags,
) -> PTE {
    PTE::spec_new_page(size.spec_align_down(target), flags, size.spec_is_huge())
}

/// A descriptor that is huge, or holds an address, is in use.
pub proof fn lemma_in_use<PTE: GenericPTE>()
    ensures
        forall|e: PTE| #[trigger]
            e.spec_is_unused() ==> !e.spec_is_present() && !e.spec_is_huge() && e.spec_paddr()
                == 0,
        PTE::spec_from_raw(0).spec_is_unused(),
{
    assert forall|e: PTE| #[trigger] e.spec_is_unused() implies !e.spec_is_present()
        && !e.spec_is_huge() && e.spec_paddr() == 0 by {
        PTE::lemma_raw(e);
        PTE::lemma_zero();
    }
    PTE::lemma_zero();
    PTE::lemma_raw(PTE::spec_from_raw(0));
}

/// Leaving the descriptors in use as they were carries over two steps.
pub proof fn lemma_unused_changed_twice<PTE: GenericPTE>(
    a: Map<usize, Seq<u64>>,
    b: Map<usize, Seq<u64>>,
    c: Map<usize, Seq<u64>>,
)
    requires
        only_unused_changed::<PTE>(a, b),
        only_unused_changed::<PTE>(b, c),
    ensures
        only_unused_changed::<PTE>(a, c),
{
    assert forall|t: usize, i: usize|
        #![trigger entry_at::<PTE>(a, t, i)]
        #![trigger entry_at::<PTE>(c, t, i)]
        true implies match entry_at::<PTE>(a, t, i) {
        Some(x) => x.spec_is_unused() || entry_at::<PTE>(c, t, i) == Some(x),
        None => true,
    } by {
        match entry_at::<PTE>(a, t, i) {
            Some(x) => {
                if !x.spec_is_unused() {
                    assert(entry_at::<PTE>(b, t, i) == Some(x));
                }
            },
            None => {},
        }
    }
}

/// Writing a descriptor to an unused slot leaves the descriptors in use as
/// they were.
pub proof fn lemma_slot_written<PTE: GenericPTE>(
    before: Map<usize, Seq<u64>>,
    slot: Slot,
    entry: PTE,
)
    requires
        PTE::spec_short(),
        entry_at::<PTE>(before, slot.table, slot.index) is Some,
        entry_at::<PTE>(before, slot.table, slot.index).unwrap().spec_is_unused(),
    ensures
        only_unused_changed::<PTE>(before, write_slot(before, slot, entry.spec_raw())),
        entry_at::<PTE>(write_slot(before, slot, entry.spec_raw()), slot.table, slot.index)
            == Some(entry),
        write_slot(before, slot, entry.spec_raw()).dom() =~= before.dom(),
{
    let after = write_slot(before, slot, entry.spec_raw());
    lemma_written::<PTE>(before, slot, entry);
    assert(entry_at::<PTE>(after, slot.table, slot.index) == Some(entry));
    assert forall|t: usize, i: usize|
        #![trigger entry_at::<PTE>(before, t, i)]
        #![trigger entry_at::<PTE>(after, t, i)]
        true implies match entry_at::<PTE>(before, t, i) {
        Some(x) => x.spec_is_unused() || entry_at::<PTE>(after, t, i) == Some(x),
        None => true,
    } by {
        if same_place(Slot { table: t, index: i }, slot) {
            assert(entry_at::<PTE>(before, t, i) == entry_at::<PTE>(
                before,
                slot.table,
                slot.index,
            ));
        }
    }
}

/// A query that finds a mapping finds the same in every later state of the
/// frames that left the descriptors in use as they were.
pub proof fn lemma_query_preserved<PTE: GenericPTE>(
    before: Map<usize, Seq<u64>>,
    after: Map<usize, Seq<u64>>,
    root: usize,
    vaddr: usize,
)
    requires
        only_unused_changed::<PTE>(before, after),
        spec_query::<PTE>(before, root, vaddr) is Ok,
    ensures
        spec_query::<PTE>(after, root, vaddr) == spec_query::<PTE>(before, root, vaddr),
        locate::<PTE>(after, root, vaddr) == locate::<PTE>(before, root, vaddr),
{
    lemma_in_use::<PTE>();
    let i1 = spec_p1_index(vaddr);
    let i2 = spec_p2_index(vaddr);
    let e1 = entry_at::<PTE>(before, root, i1).unwrap();
    assert(entry_at::<PTE>(after, root, i1) == Some(e1));
    if !e1.spec_is_huge() {
        let e2 = entry_at::<PTE>(before, e1.spec_paddr(), i2).unwrap();
        assert(entry_at::<PTE>(after, e1.spec_paddr(), i2) == Some(e2));
    }
}

/// Walks from `root` to the descriptor that translates `vaddr`, and returns
/// where it lies, the descriptor, and the size of what it maps.
pub fn get_entry<PTE: GenericPTE, H: PagingHandler>(handler: &H, root: usize, vaddr: usize) -> (r:
    Result<(Slot, PTE, PageSize), PagingError>)
    requires
        handler.inv(),
    ensures
        match r {
            Ok((slot, entry, size)) => {
                &&& locate::<PTE>(handler.frames(), root, vaddr) == Ok::<
                    (Slot, PageSize),
                    PagingError,
                >((slot, size))
                &&& entry_at::<PTE>(handler.frames(), slot.table, slot.index) == Some(entry)
                &&& slot.index < L1_ENTRY_COUNT
            },
            Err(err) => locate::<PTE>(handler.frames(), root, vaddr) == Err::<
                (Slot, PageSize),
                PagingError,
            >(err),
        },
{
    let p1: usize = p1_index(vaddr);
    let entry: PTE = match read_entry::<PTE, H>(handler, root, p1) {
        Some(e) => e,
        None => { return Err(PagingError::NotMapped); },
    };
    if entry.is_unused() {
        return Err(PagingError::NotMapped);
    }
    // Check if it's a 1MB Section
    if entry.is_huge() {
        return Ok((Slot { table: root, index: p1 }, entry, PageSize::Size1M));
    }
    // It's a page table pointer, go to L2
    let p2_table: usize = entry.paddr();
    let p2: usize = p2_index(vaddr);
    match read_entry::<PTE, H>(handler, p2_table, p2) {
        Some(e) => Ok((Slot { table: p2_table, index: p2 }, e, PageSize::Size4K)),
        None => Err(PagingError::NotMapped),
    }
}

/// The slot at `index` of `table`, or `NotMapped` where the frame is missing.
pub open spec fn spec_slot_found<PTE: GenericPTE>(
    frames: Map<usize, Seq<u64>>,
    table: usize,
    index: usize,
) -> Result<Slot, PagingError> {
    match entry_at::<PTE>(frames, table, index) {
        Some(_) => Ok(Slot { table, index }),
        None => Err(PagingError::NotMapped),
    }
}

/// `after` is `before` with one more frame at `child`, all zero, and with a
/// descriptor at `slot` that points to it.
pub open spec fn table_created<PTE: GenericPTE>(
    before: Map<usize, Seq<u64>>,
    after: Map<usize, Seq<u64>>,
    slot: Slot,
    child: usize,
) -> bool {
    &&& !before.contains_key(child)
    &&& after == write_slot(
        before.insert(child, zero_words()),
        slot,
        PTE::spec_new_table(child).spec_raw(),
    )
}

/// What a creating walk does, exactly. For a section it ends at the slot of
/// the table of the first level and changes nothing. For a page it looks
/// at the descriptor of the first level: where that points to a table, it
/// ends at the slot of that table and changes nothing; where it is unused,
/// a table is made as [`table_created`] says and the walk ends at the slot
/// of the table that the new descriptor points to, or memory runs out and
/// nothing changes; a section in the way gives `AlreadyMapped`, a missing
/// frame `NotMapped`, and nothing changes.
#[verifier::opaque]
pub open spec fn walk_made<PTE: GenericPTE>(
    before: Map<usize, Seq<u64>>,
    after: Map<usize, Seq<u64>>,
    root: usize,
    vaddr: usize,
    size: PageSize,
    r: Result<Slot, PagingError>,
) -> bool {
    let i1 = spec_p1_index(vaddr);
    let i2 = spec_p2_index(vaddr);
    if size == PageSize::Size1M {
        after == before && r == spec_slot_found::<PTE>(before, root, i1)
    } else {
        match entry_at::<PTE>(before, root, i1) {
            Some(e) => if e.spec_is_unused() {
                ||| after == before && r == Err::<Slot, PagingError>(PagingError::NoMemory)
                ||| exists|child: usize|
                    {
                        &&& #[trigger] table_created::<PTE>(
                            before,
                            after,
                            Slot { table: root, index: i1 },
                            child,
                        )
                        &&& r == spec_slot_found::<PTE>(
                            after,
                            PTE::spec_new_table(child).spec_paddr(),
                            i2,
                        )
                    }
            } else if e.spec_is_huge() {
                after == before && r == Err::<Slot, PagingError>(PagingError::AlreadyMapped)
            } else {
                after == before && r == spec_slot_found::<PTE>(before, e.spec_paddr(), i2)
            },
            None => after == before && r == Err::<Slot, PagingError>(PagingError::NotMapped),
        }
    }
}

/// Walks from `root` to the slot for a page of `page_size` at `vaddr`, and
/// makes the table of the second level where it is missing.
#[verifier::rlimit(50)]
pub fn get_entry_mut_or_create<PTE: GenericPTE, H: PagingHandler>(
    handler: &mut H,
    root: usize,
    vaddr: usize,
    page_size: PageSize,
    tables: &mut Ghost<Map<usize, usize>>,
) -> (r: Result<Slot, PagingError>)
    requires
        old(handler).inv(),
        PTE::spec_short(),
        page_size == PageSize::Size4K || page_size == PageSize::Size1M,
    ensures
        final(handler).inv(),
        walk_made::<PTE>(
            old(handler).frames(),
            final(handler).frames(),
            root,
            vaddr,
            page_size,
            r,
        ),
        walk_owned::<PTE>(
            old(handler).frames(),
            final(handler).frames(),
            root,
            old(tables)@,
            final(tables)@,
            page_size,
            r,
        ),
        only_unused_changed::<PTE>(old(handler).frames(), final(handler).frames()),
        old(handler).frames().dom().subset_of(final(handler).frames().dom()),
        match target_slot::<PTE>(old(handler).frames(), root, vaddr, page_size) {
            Ok(Some(slot)) => r == Ok::<Slot, PagingError>(slot) && final(handler).frames() == old(handler).frames(),
            Ok(None) => match r {
                Ok(slot) => frames_fit::<PTE>(final(handler).frames()) ==> entry_at::<PTE>(
                    final(handler).frames(),
                    slot.table,
                    slot.index,
                ) == Some(PTE::spec_from_raw(0)),
                Err(err) => err == PagingError::NoMemory || (err == PagingError::NotMapped
                    && !frames_fit::<PTE>(final(handler).frames())),
            },
            Err(err) => r == Err::<Slot, PagingError>(err) && final(handler).frames() == old(handler).frames(),
        },
        match r {
            Ok(slot) => {
                &&& slot.index < L1_ENTRY_COUNT
                &&& entry_at::<PTE>(final(handler).frames(), slot.table, slot.index) is Some
                &&& frames_fit::<PTE>(final(handler).frames()) ==> target_slot::<PTE>(
                    final(handler).frames(),
                    root,
                    vaddr,
                    page_size,
                ) == Ok::<Option<Slot>, PagingError>(Some(slot))
            },
            Err(_) => true,
        },
{
    let ghost f0 = handler.frames();
    let ghost t0 = tables@;
    proof {
        reveal(walk_made);
        lemma_in_use::<PTE>();
        assert(f0.dom().difference(f0.dom()) =~= Set::<usize>::empty());
        assert(t0.dom() =~= t0.dom().union(Set::<usize>::empty()));
    }
    let p1: usize = p1_index(vaddr);
    if page_size == PageSize::Size1M {
        // Map as 1MB Section in L1
        return match read_entry::<PTE, H>(handler, root, p1) {
            Some(_) => Ok(Slot { table: root, index: p1 }),
            None => Err(PagingError::NotMapped),
        };
    }
    // Need L2 page table for 4KB mapping
    let mut entry: PTE = match read_entry::<PTE, H>(handler, root, p1) {
        Some(e) => e,
        None => { return Err(PagingError::NotMapped); },
    };
    if entry.is_unused() {
        // Create new L2 page table (allocate 4KB, though only 1KB is used)
        let paddr: usize = match handler.alloc_frame() {
            Some(paddr) => paddr,
            None => { return Err(PagingError::NoMemory); },
        };
        let ghost f1 = handler.frames();
        assert(f1.contains_key(paddr));
        // Zero out the L2 page table
        zero_frame(handler, paddr);
        let ghost f2 = handler.frames();
        entry = PTE::new_table(paddr);
        proof {
            handler.lemma_inv();
            assert forall|t: usize, i: usize| #[trigger]
                entry_at::<PTE>(f0, t, i) is Some implies entry_at::<PTE>(f2, t, i)
                == entry_at::<PTE>(f0, t, i) by {
                assert(f0.contains_key(entry_frame(t, i) as usize));
            }
        }
        write_entry::<PTE, H>(handler, Slot { table: root, index: p1 }, entry);
        proof {
            let f3 = handler.frames();
            assert(f2 =~= f0.insert(paddr, zero_words()));
            assert(f3.dom() =~= f0.dom().insert(paddr)) by {
                lemma_written::<PTE>(f2, Slot { table: root, index: p1 }, entry);
            }
            if tree_wf::<PTE>(f0, root, t0) && frames_fit::<PTE>(f3) {
                crate::owned32::lemma_created_wf::<PTE>(f0, f3, root, t0, p1, paddr);
                *tables.borrow_mut() = t0.insert(paddr, p1);
                assert(f3.dom().difference(f0.dom()) =~= set![paddr]);
                assert(tables@.dom() =~= t0.dom().insert(paddr));
            }
            lemma_slot_written::<PTE>(f2, Slot { table: root, index: p1 }, entry);
            assert(only_unused_changed::<PTE>(f0, f2));
            lemma_unused_changed_twice::<PTE>(f0, f2, f3);
            lemma_written::<PTE>(f2, Slot { table: root, index: p1 }, entry);
            if PTE::spec_holds_table(paddr) {
                PTE::lemma_new_table(paddr);
                lemma_new_table_zero::<PTE>(f2, f3, Slot { table: root, index: p1 }, entry, paddr);
            }
            assert(f3.contains_key(paddr));
            assert(table_created::<PTE>(f0, f3, Slot { table: root, index: p1 }, paddr));
        }
    } else if entry.is_huge() {
        // Already mapped as huge page
        return Err(PagingError::AlreadyMapped);
    }
    let p2_table: usize = entry.paddr();
    let p2: usize = p2_index(vaddr);
    match read_entry::<PTE, H>(handler, p2_table, p2) {
        Some(_) => Ok(Slot { table: p2_table, index: p2 }),
        None => Err(PagingError::NotMapped),
    }
}

/// The descriptors of a new table are zero, also after the descriptor that
/// points to it was written.
pub proof fn lemma_new_table_zero<PTE: GenericPTE>(
    before: Map<usize, Seq<u64>>,
    after: Map<usize, Seq<u64>>,
    slot: Slot,
    entry: PTE,
    child: usize,
)
    requires
        PTE::spec_short(),
        before.contains_key(child),
        before[child] == zero_words(),
        child % FRAME_SIZE == 0,
        entry_at::<PTE>(before, slot.table, slot.index) is Some,
        !entry.spec_is_unused(),
        after == write_slot(before, slot, entry.spec_raw()),
        entry_frame(slot.table, slot.index) != child,
    ensures
        forall|i: usize|
            i < FRAME_ENTRIES ==> #[trigger] entry_at::<PTE>(after, child, i) == Some(
                PTE::spec_from_raw(0),
            ),
{
    lemma_written::<PTE>(before, slot, entry);
    assert forall|i: usize| i < FRAME_ENTRIES implies #[trigger] entry_at::<PTE>(after, child, i)
        == Some(PTE::spec_from_raw(0)) by {
        lemma_halves(0, i % 2 == 1, 0);
        assert(entry_frame(child, i) == child);
        assert(!same_place(Slot { table: child, index: i }, slot));
        assert(before[child][entry_word(i)] == 0);
    }
}

/// What mapping a page does to the frames, exactly, where `mid` are the
/// frames that the creating walk leaves and `found` is where it ends: the
/// walk is as [`walk_made`] says; at an unused slot the page is written, at
/// a slot in use the call fails with `AlreadyMapped`, and where the walk
/// failed the call fails as the walk did; nothing else changes.
pub open spec fn map_made_by<PTE: GenericPTE>(
    before: Map<usize, Seq<u64>>,
    mid: Map<usize, Seq<u64>>,
    after: Map<usize, Seq<u64>>,
    root: usize,
    vaddr: usize,
    page: PTE,
    size: PageSize,
    r: Result<(), PagingError>,
    found: Result<Slot, PagingError>,
) -> bool {
    &&& walk_made::<PTE>(before, mid, root, vaddr, size, found)
    &&& match found {
        Ok(slot) => match entry_at::<PTE>(mid, slot.table, slot.index) {
            Some(e) => if e.spec_is_unused() {
                r is Ok && after == write_slot(mid, slot, page.spec_raw())
            } else {
                r == Err::<(), PagingError>(PagingError::AlreadyMapped) && after == mid
            },
            None => false,
        },
        Err(err) => r == Err::<(), PagingError>(err) && after == mid,
    }
}

/// What mapping a page does to the frames, exactly: [`map_made_by`], for
/// some frames that the creating walk leaves and some end of it.
#[verifier::opaque]
pub open spec fn map_made<PTE: GenericPTE>(
    before: Map<usize, Seq<u64>>,
    after: Map<usize, Seq<u64>>,
    root: usize,
    vaddr: usize,
    page: PTE,
    size: PageSize,
    r: Result<(), PagingError>,
) -> bool {
    exists|mid: Map<usize, Seq<u64>>, found: Result<Slot, PagingError>|
        map_made_by::<PTE>(before, mid, after, root, vaddr, page, size, r, found)
}

/// Frames that a creating walk leaves and an end of it show what mapping a
/// page did.
pub proof fn lemma_map_made<PTE: GenericPTE>(
    before: Map<usize, Seq<u64>>,
    mid: Map<usize, Seq<u64>>,
    after: Map<usize, Seq<u64>>,
    root: usize,
    vaddr: usize,
    page: PTE,
    size: PageSize,
    r: Result<(), PagingError>,
    found: Result<Slot, PagingError>,
)
    requires
        map_made_by::<PTE>(before, mid, after, root, vaddr, page, size, r, found),
    ensures
        map_made::<PTE>(before, after, root, vaddr, page, size, r),
{
    reveal(map_made);
}

/// What mapping a page does: `before` and `after` are the frames before and
/// after, `page` is the descriptor to write for a page of `size` at `vaddr`,
/// and `r` is the result.
///
/// Only unused descriptors change and no frame goes away. Where the slot is
/// there, the page is written if the slot is unused, and else the call fails
/// with `AlreadyMapped` and changes nothing. Where the table of the second
/// level is missing, the call succeeds or runs out of memory, as long as
/// table descriptors can point to all the frames. Where a section is in the
/// way the call fails with `AlreadyMapped`, and where a frame is missing
/// with `NotMapped`, and changes nothing. After a success a lookup of
/// `vaddr` ends at the new descriptor, as long as table descriptors can
/// point to all the frames and the new descriptor is a section that is in
/// use where a section was asked for. What the frames are after the call is
/// fixed by [`map_made`].
pub open spec fn map_outcome<PTE: GenericPTE>(
    before: Map<usize, Seq<u64>>,
    after: Map<usize, Seq<u64>>,
    root: usize,
    vaddr: usize,
    page: PTE,
    size: PageSize,
    r: Result<(), PagingError>,
) -> bool {
    &&& map_made::<PTE>(before, after, root, vaddr, page, size, r)
    &&& only_unused_changed::<PTE>(before, after)
    &&& before.dom().subset_of(after.dom())
    &&& match target_slot::<PTE>(before, root, vaddr, size) {
        Ok(Some(slot)) => if entry_at::<PTE>(before, slot.table, slot.index).unwrap()
            .spec_is_unused() {
            &&& r is Ok
            &&& after == write_slot(before, slot, page.spec_raw())
        } else {
            &&& r == Err::<(), PagingError>(PagingError::AlreadyMapped)
            &&& after == before
        },
        Ok(None) => r is Ok || r == Err::<(), PagingError>(PagingError::NoMemory)
            || !frames_fit::<PTE>(after),
        Err(err) => r == Err::<(), PagingError>(err) && after == before,
    }
    &&& r == Err::<(), PagingError>(PagingError::NoMemory) ==> target_slot::<PTE>(
        before,
        root,
        vaddr,
        size,
    ) == Ok::<Option<Slot>, PagingError>(None)
    &&& r != Err::<(), PagingError>(PagingError::NotAligned)
    &&& r is Ok && frames_fit::<PTE>(after) && (size == PageSize::Size4K || (page.spec_is_huge()
        && !page.spec_is_unused())) ==> mapped_by::<PTE>(after, root, vaddr, page, size)
}

/// What remapping does: the descriptor that translates `vaddr` is replaced
/// by one for the frame at `paddr` with the permissions `flags`, and the
/// size of its page is returned. Where the walk fails, its error is returned
/// and nothing changes.
pub open spec fn remap_outcome<PTE: GenericPTE>(
    before: Map<usize, Seq<u64>>,
    after: Map<usize, Seq<u64>>,
    root: usize,
    vaddr: usize,
    paddr: usize,
    flags: MappingFlags,
    r: Result<PageSize, PagingError>,
) -> bool {
    match locate::<PTE>(before, root, vaddr) {
        Ok((slot, size)) => {
            &&& r == Ok::<PageSize, PagingError>(size)
            &&& after == write_slot(
                before,
                slot,
                PTE::spec_new_page(paddr, flags, size.spec_is_huge()).spec_raw(),
            )
        },
        Err(err) => r == Err::<PageSize, PagingError>(err) && after == before,
    }
}

/// What changing the permissions does: the descriptor that translates
/// `vaddr` is replaced by one for the same frame with the permissions
/// `flags`, if it is in use, and the size of its page is returned. An unused
/// descriptor is left alone and the call fails with `NotMapped`. Where the
/// walk fails, its error is returned and nothing changes.
pub open spec fn protect_outcome<PTE: GenericPTE>(
    before: Map<usize, Seq<u64>>,
    after: Map<usize, Seq<u64>>,
    root: usize,
    vaddr: usize,
    flags: MappingFlags,
    r: Result<PageSize, PagingError>,
) -> bool {
    match locate::<PTE>(before, root, vaddr) {
        Ok((slot, size)) => {
            let entry = entry_at::<PTE>(before, slot.table, slot.index).unwrap();
            if !entry.spec_is_unused() {
                &&& r == Ok::<PageSize, PagingError>(size)
                &&& after == write_slot(
                    before,
                    slot,
                    PTE::spec_new_page(entry.spec_paddr(), flags, size.spec_is_huge()).spec_raw(),
                )
            } else {
                &&& r == Err::<PageSize, PagingError>(PagingError::NotMapped)
                &&& after == before
            }
        },
        Err(err) => r == Err::<PageSize, PagingError>(err) && after == before,
    }
}

/// What unmapping does: the descriptor that translates `vaddr` is cleared if
/// it is in use, and the address it held is returned with the size of its
/// page. An unused descriptor gives `NotMapped`. Where the walk fails, its
/// error is returned. Afterwards a query of `vaddr` finds no mapping.
pub open spec fn unmap_outcome<PTE: GenericPTE>(
    before: Map<usize, Seq<u64>>,
    after: Map<usize, Seq<u64>>,
    root: usize,
    vaddr: usize,
    r: Result<(usize, PageSize), PagingError>,
) -> bool {
    &&& match locate::<PTE>(before, root, vaddr) {
        Ok((slot, size)) => {
            let entry = entry_at::<PTE>(before, slot.table, slot.index).unwrap();
            if !entry.spec_is_unused() {
                &&& after == write_slot(before, slot, 0)
                &&& r == Ok::<(usize, PageSize), PagingError>((entry.spec_paddr(), size))
            } else {
                &&& after == before
                &&& r == Err::<(usize, PageSize), PagingError>(PagingError::NotMapped)
            }
        },
        Err(err) => r == Err::<(usize, PageSize), PagingError>(err) && after == before,
    }
    &&& spec_query::<PTE>(after, root, vaddr) is Err
    &&& r is Ok ==> spec_query::<PTE>(after, root, vaddr) == Err::<
        (usize, PageSize, MappingFlags),
        PagingError,
    >(PagingError::NotMapped)
}

/// Query the result of the mapping starts with `vaddr`.
pub fn query_page<PTE: GenericPTE, H: PagingHandler>(handler: &H, root: usize, vaddr: usize) -> (r:
    Result<(usize, PageSize, MappingFlags), PagingError>)
    requires
        handler.inv(),
    ensures
        r == spec_query::<PTE>(handler.frames(), root, vaddr),
{
    let (_, entry, size) = get_entry::<PTE, H>(handler, root, vaddr)?;
    if entry.is_unused() {
        return Err(PagingError::NotMapped);
    }
    let off: usize = size.align_offset(vaddr);
    Ok((wrapping_sum(entry.paddr(), off), size, entry.flags()))
}

/// The walk of a lookup ends at `slot` once a descriptor `entry` for a page
/// of `size` is written there, where the creating walk has `slot` for its
/// target and the descriptor that was there was unused.
pub proof fn lemma_leaf_written<PTE: GenericPTE>(
    before: Map<usize, Seq<u64>>,
    root: usize,
    vaddr: usize,
    size: PageSize,
    slot: Slot,
    entry: PTE,
)
    requires
        PTE::spec_short(),
        size == PageSize::Size4K || size == PageSize::Size1M,
        target_slot::<PTE>(before, root, vaddr, size) == Ok::<Option<Slot>, PagingError>(
            Some(slot),
        ),
        entry_at::<PTE>(before, slot.table, slot.index).unwrap().spec_is_unused(),
        size == PageSize::Size4K || (entry.spec_is_huge() && !entry.spec_is_unused()),
    ensures
        mapped_by::<PTE>(write_slot(before, slot, entry.spec_raw()), root, vaddr, entry, size),
{
    reveal(mapped_by);
    let after = write_slot(before, slot, entry.spec_raw());
    lemma_in_use::<PTE>();
    lemma_written::<PTE>(before, slot, entry);
    let i1 = spec_p1_index(vaddr);
    if size == PageSize::Size4K {
        let e1 = entry_at::<PTE>(before, root, i1).unwrap();
        assert(!same_place(Slot { table: root, index: i1 }, slot));
        assert(entry_at::<PTE>(after, root, i1) == Some(e1));
        assert(entry_at::<PTE>(after, slot.table, slot.index) == Some(entry));
    } else {
        assert(entry_at::<PTE>(after, slot.table, slot.index) == Some(entry));
    }
}

/// Maps the page of `page_size` at `vaddr` to the frame that `target` lies
/// in.
#[verifier::rlimit(50)]
pub fn map_page<PTE: GenericPTE, H: PagingHandler>(
    handler: &mut H,
    root: usize,
    vaddr: usize,
    target: usize,
    page_size: PageSize,
    flags: MappingFlags,
    tables: &mut Ghost<Map<usize, usize>>,
) -> (r: Result<(), PagingError>)
    requires
        old(handler).inv(),
        PTE::spec_short(),
        page_size == PageSize::Size4K || page_size == PageSize::Size1M,
    ensures
        final(handler).inv(),
        map_owned::<PTE>(
            old(handler).frames(),
            final(handler).frames(),
            root,
            old(tables)@,
            final(tables)@,
            page_entry::<PTE>(target, page_size, flags),
            page_size,
            r,
        ),
        map_outcome::<PTE>(
            old(handler).frames(),
            final(handler).frames(),
            root,
            vaddr,
            page_entry::<PTE>(target, page_size, flags),
            page_size,
            r,
        ),
{
    let ghost f0 = handler.frames();
    proof {
        lemma_in_use::<PTE>();
    }
    let ghost t0 = tables@;
    let slot: Slot = match get_entry_mut_or_create::<PTE, H>(
        handler,
        root,
        vaddr,
        page_size,
        tables,
    ) {
        Ok(slot) => slot,
        Err(err) => {
            proof {
                lemma_map_made::<PTE>(
                    f0,
                    handler.frames(),
                    handler.frames(),
                    root,
                    vaddr,
                    page_entry::<PTE>(target, page_size, flags),
                    page_size,
                    Err(err),
                    Err(err),
                );
            }
            return Err(err);
        },
    };
    let ghost f1 = handler.frames();
    let entry: PTE = match read_entry::<PTE, H>(handler, slot.table, slot.index) {
        Some(e) => e,
        None => { return Err(PagingError::NotMapped); },
    };
    if !entry.is_unused() {
        proof {
            lemma_map_made::<PTE>(
                f0,
                f1,
                f1,
                root,
                vaddr,
                page_entry::<PTE>(target, page_size, flags),
                page_size,
                Err(PagingError::AlreadyMapped),
                Ok(slot),
            );
        }
        return Err(PagingError::AlreadyMapped);
    }
    let page: PTE = PTE::new_page(page_size.align_down(target), flags, page_size.is_huge());
    write_entry::<PTE, H>(handler, slot, page);
    proof {
        let f2 = handler.frames();
        lemma_map_made::<PTE>(f0, f1, f2, root, vaddr, page, page_size, Ok(()), Ok(slot));
        lemma_slot_written::<PTE>(f1, slot, page);
        lemma_unused_changed_twice::<PTE>(f0, f1, f2);
        assert(f1.dom().subset_of(f2.dom()));
        if frames_fit::<PTE>(f2) && tree_wf::<PTE>(f0, root, t0) && (page_size
            == PageSize::Size4K || !points_to_table(page)) {
            assert(frames_fit::<PTE>(f1)) by {
                assert forall|p: usize| #[trigger] f1.contains_key(p) implies PTE::spec_holds_table(
                    p,
                ) by {
                    assert(f2.contains_key(p));
                }
            }
            assert(f2.dom() =~= f1.dom());
            crate::owned32::lemma_written_wf::<PTE>(f1, root, tables@, slot, page);
        }
        if frames_fit::<PTE>(f2) {
            assert(frames_fit::<PTE>(f1)) by {
                assert forall|p: usize| #[trigger] f1.contains_key(p) implies PTE::spec_holds_table(
                    p,
                ) by {
                    assert(f2.contains_key(p));
                }
            }
            if page_size == PageSize::Size4K || (page.spec_is_huge() && !page.spec_is_unused()) {
                lemma_leaf_written::<PTE>(f1, root, vaddr, page_size, slot, page);
            }
        }
    }
    Ok(())
}

/// Remap the mapping starts with `vaddr`, updates both the physical address
/// and flags.
pub fn remap_page<PTE: GenericPTE, H: PagingHandler>(
    handler: &mut H,
    root: usize,
    vaddr: usize,
    paddr: usize,
    flags: MappingFlags,
) -> (r: Result<PageSize, PagingError>)
    requires
        old(handler).inv(),
    ensures
        final(handler).inv(),
        remap_outcome::<PTE>(
            old(handler).frames(),
            final(handler).frames(),
            root,
            vaddr,
            paddr,
            flags,
            r,
        ),
{
    let (slot, _, size) = get_entry::<PTE, H>(handler, root, vaddr)?;
    write_entry::<PTE, H>(handler, slot, PTE::new_page(paddr, flags, size.is_huge()));
    Ok(size)
}

/// Updates the flags of the mapping starts with `vaddr`.
pub fn protect_page<PTE: GenericPTE, H: PagingHandler>(
    handler: &mut H,
    root: usize,
    vaddr: usize,
    flags: MappingFlags,
) -> (r: Result<PageSize, PagingError>)
    requires
        old(handler).inv(),
    ensures
        final(handler).inv(),
        protect_outcome::<PTE>(old(handler).frames(), final(handler).frames(), root, vaddr, flags, r),
{
    let (slot, entry, size) = get_entry::<PTE, H>(handler, root, vaddr)?;
    if entry.is_unused() {
        return Err(PagingError::NotMapped);
    }
    write_entry::<PTE, H>(handler, slot, PTE::new_page(entry.paddr(), flags, size.is_huge()));
    Ok(size)
}

/// Unmaps the mapping starts with `vaddr`.
pub fn unmap_page<PTE: GenericPTE, H: PagingHandler>(handler: &mut H, root: usize, vaddr: usize) -> (r:
    Result<(usize, PageSize), PagingError>)
    requires
        old(handler).inv(),
        PTE::spec_short(),
    ensures
        final(handler).inv(),
        unmap_outcome::<PTE>(old(handler).frames(), final(handler).frames(), root, vaddr, r),
{
    let ghost f0 = handler.frames();
    let (slot, entry, size) = match get_entry::<PTE, H>(handler, root, vaddr) {
        Ok(found) => found,
        Err(err) => {
            return Err(err);
        },
    };
    if entry.is_unused() {
        return Err(PagingError::NotMapped);
    }
    let paddr: usize = entry.paddr();
    let mut cleared: PTE = entry;
    cleared.clear();
    write_entry::<PTE, H>(handler, slot, cleared);
    proof {
        lemma_cleared::<PTE>(f0, root, vaddr, cleared);
    }
    Ok((paddr, size))
}

/// Once the descriptor that translates `vaddr` is cleared, a query of `vaddr`
/// finds no mapping.
pub proof fn lemma_cleared<PTE: GenericPTE>(
    before: Map<usize, Seq<u64>>,
    root: usize,
    vaddr: usize,
    zero: PTE,
)
    requires
        PTE::spec_short(),
        zero.spec_raw() == 0,
        locate::<PTE>(before, root, vaddr) is Ok,
    ensures
        spec_query::<PTE>(
            write_slot(before, locate::<PTE>(before, root, vaddr).unwrap().0, 0),
            root,
            vaddr,
        ) == Err::<(usize, PageSize, MappingFlags), PagingError>(PagingError::NotMapped),
{
    let slot = locate::<PTE>(before, root, vaddr).unwrap().0;
    let after = write_slot(before, slot, 0);
    PTE::lemma_raw(zero);
    lemma_in_use::<PTE>();
    lemma_written::<PTE>(before, slot, zero);
    let i1 = spec_p1_index(vaddr);
    let i2 = spec_p2_index(vaddr);
    let e1 = entry_at::<PTE>(before, root, i1).unwrap();
    let a1 = entry_at::<PTE>(after, root, i1);
    assert(a1 == Some(zero) || a1 == Some(e1));
    if a1 == Some(e1) && !e1.spec_is_huge() {
        let a2 = entry_at::<PTE>(after, e1.spec_paddr(), i2);
        assert(a2 == Some(zero));
    }
}

/// What a range edit needs to know of mapping one page: only unused
/// descriptors change, no frame goes away, a success leaves the page mapped
/// by its descriptor, and a failure is never `NotAligned`.
pub open spec fn map_effect<PTE: GenericPTE>(
    before: Map<usize, Seq<u64>>,
    after: Map<usize, Seq<u64>>,
    root: usize,
    vaddr: usize,
    page: PTE,
    size: PageSize,
    r: Result<(), PagingError>,
) -> bool {
    &&& only_unused_changed::<PTE>(before, after)
    &&& before.dom().subset_of(after.dom())
    &&& r is Ok && frames_fit::<PTE>(after) && (size == PageSize::Size4K || (page.spec_is_huge()
        && !page.spec_is_unused())) ==> mapped_by::<PTE>(after, root, vaddr, page, size)
    &&& r != Err::<(), PagingError>(PagingError::NotAligned)
}

/// What [`map_outcome`] says in full holds in short as [`map_effect`].
pub proof fn lemma_map_effect<PTE: GenericPTE>(
    before: Map<usize, Seq<u64>>,
    after: Map<usize, Seq<u64>>,
    root: usize,
    vaddr: usize,
    page: PTE,
    size: PageSize,
    r: Result<(), PagingError>,
)
    requires
        map_outcome::<PTE>(before, after, root, vaddr, page, size, r),
    ensures
        map_effect::<PTE>(before, after, root, vaddr, page, size, r),
{
}

/// The translation of an address that a descriptor maps is what the
/// descriptor says.
pub proof fn lemma_mapped_by_query<PTE: GenericPTE>(
    frames: Map<usize, Seq<u64>>,
    root: usize,
    vaddr: usize,
    entry: PTE,
    size: PageSize,
)
    requires
        mapped_by::<PTE>(frames, root, vaddr, entry, size),
    ensures
        spec_query::<PTE>(frames, root, vaddr) == translation(entry, size, vaddr),
{
    reveal(mapped_by);
}

/// The frames after the page at `vaddr` is unmapped: the descriptor that
/// translates `vaddr` is cleared, if the walk finds one that is in use.
#[verifier::opaque]
pub open spec fn spec_unmap_frames<PTE: GenericPTE>(
    frames: Map<usize, Seq<u64>>,
    root: usize,
    vaddr: usize,
) -> Map<usize, Seq<u64>> {
    match locate::<PTE>(frames, root, vaddr) {
        Ok((slot, _)) => if entry_at::<PTE>(frames, slot.table, slot.index).unwrap()
            .spec_is_unused() {
            frames
        } else {
            write_slot(frames, slot, 0)
        },
        Err(_) => frames,
    }
}

/// What unmapping the page at `vaddr` returns.
#[verifier::opaque]
pub open spec fn spec_unmap_result<PTE: GenericPTE>(
    frames: Map<usize, Seq<u64>>,
    root: usize,
    vaddr: usize,
) -> Result<(usize, PageSize), PagingError> {
    match locate::<PTE>(frames, root, vaddr) {
        Ok((slot, size)) => {
            let entry = entry_at::<PTE>(frames, slot.table, slot.index).unwrap();
            if entry.spec_is_unused() {
                Err(PagingError::NotMapped)
            } else {
                Ok((entry.spec_paddr(), size))
            }
        },
        Err(err) => Err(err),
    }
}

/// The frames after the permissions of the page at `vaddr` are set to
/// `flags`: the descriptor that translates `vaddr` is replaced, if the walk
/// finds one that is in use.
#[verifier::opaque]
pub open spec fn spec_protect_frames<PTE: GenericPTE>(
    frames: Map<usize, Seq<u64>>,
    root: usize,
    vaddr: usize,
    flags: MappingFlags,
) -> Map<usize, Seq<u64>> {
    match locate::<PTE>(frames, root, vaddr) {
        Ok((slot, size)) => {
            let entry = entry_at::<PTE>(frames, slot.table, slot.index).unwrap();
            if entry.spec_is_unused() {
                frames
            } else {
                write_slot(
                    frames,
                    slot,
                    PTE::spec_new_page(entry.spec_paddr(), flags, size.spec_is_huge()).spec_raw(),
                )
            }
        },
        Err(_) => frames,
    }
}

/// What setting the permissions of the page at `vaddr` returns.
#[verifier::opaque]
pub open spec fn spec_protect_result<PTE: GenericPTE>(
    frames: Map<usize, Seq<u64>>,
    root: usize,
    vaddr: usize,
) -> Result<PageSize, PagingError> {
    match locate::<PTE>(frames, root, vaddr) {
        Ok((slot, size)) => {
            if entry_at::<PTE>(frames, slot.table, slot.index).unwrap().spec_is_unused() {
                Err(PagingError::NotMapped)
            } else {
                Ok(size)
            }
        },
        Err(err) => Err(err),
    }
}

/// After a page was mapped, a query of its address answers with the frame
/// that the target lies in, the offset of the address in the page, the size,
/// and the permissions as the descriptor grants them: for every target that
/// a page descriptor can hold, some permission, and frames that table
/// descriptors can point to.
pub proof fn lemma_map_then_query<PTE: GenericPTE>(
    before: Map<usize, Seq<u64>>,
    after: Map<usize, Seq<u64>>,
    root: usize,
    vaddr: usize,
    target: usize,
    size: PageSize,
    flags: MappingFlags,
)
    requires
        size == PageSize::Size4K || size == PageSize::Size1M,
        map_outcome::<PTE>(
            before,
            after,
            root,
            vaddr,
            page_entry::<PTE>(target, size, flags),
            size,
            Ok(()),
        ),
        !flags.spec_is_empty(),
        frames_fit::<PTE>(after),
        PTE::spec_holds_page(size.spec_align_down(target), size.spec_is_huge()),
    ensures
        spec_query::<PTE>(after, root, vaddr) == Ok::<
            (usize, PageSize, MappingFlags),
            PagingError,
        >(
            (
                (size.spec_align_down(target) + vaddr % size.spec_bytes()) as usize,
                size,
                PTE::spec_new_page(0, flags, false).spec_flags(),
            ),
        ),
        size.spec_align_down(target) + vaddr % size.spec_bytes() <= usize::MAX,
{
    let base = size.spec_align_down(target);
    let page = page_entry::<PTE>(target, size, flags);
    PTE::lemma_new_page(base, flags, size.spec_is_huge());
    PTE::lemma_present(page);
    lemma_mapped_by_query::<PTE>(after, root, vaddr, page, size);
    crate::lemma_page_fits(target, vaddr, size);
}

} // verus!
