//! The set of root-table slots that a tree has on loan from another tree.

use vstd::prelude::*;
use bitmaps::Bitmap;

verus! {

/// One bit for each of the 512 slots of a root table, kept in a
/// `bitmaps::Bitmap`. A set bit marks a slot whose descriptor was copied from
/// another tree, so that what lies below it belongs to that tree.
#[verifier::external_body]
pub struct BorrowedSlots {
    map: Bitmap<512>,
}

/// The slots that are marked.
pub uninterp spec fn marked(slots: BorrowedSlots) -> Set<usize>;

/// `Bitmap::new` makes a bitmap with every bit false: no slot is marked.
#[verifier::external_body]
pub(crate) fn slots_new() -> (slots: BorrowedSlots)
    ensures
        marked(slots) == Set::<usize>::empty(),
{
    BorrowedSlots { map: Bitmap::new() }
}

/// `Bitmap::get` reads the bit at `index`, which has to be below the size of
/// the bitmap.
#[verifier::external_body]
pub(crate) fn slots_get(slots: &BorrowedSlots, index: usize) -> (r: bool)
    requires
        index < 512,
    ensures
        r == marked(*slots).contains(index),
{
    slots.map.get(index)
}

/// `Bitmap::set` writes the bit at `index`, which has to be below the size of
/// the bitmap, and returns what the bit was.
#[verifier::external_body]
pub(crate) fn slots_set(slots: &mut BorrowedSlots, index: usize, value: bool) -> (was: bool)
    requires
        index < 512,
    ensures
        was == marked(*old(slots)).contains(index),
        marked(*final(slots)) == if value {
            marked(*old(slots)).insert(index)
        } else {
            marked(*old(slots)).remove(index)
        },
{
    slots.map.set(index, value)
}

} // verus!
