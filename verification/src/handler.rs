//! The frames that page tables are kept in.
//!
//! A tree of page tables does not own memory of its own. It asks a
//! [`PagingHandler`] for table frames, reads and writes their words through
//! it, and gives the frames back when it is destroyed. The handler's state is
//! modelled as a map from the physical address of each allocated frame to the
//! 512 words that the frame holds.

use vstd::prelude::*;

verus! {

/// The number of bytes in a frame.
pub const FRAME_SIZE: usize = 0x1000;

/// The number of 64-bit words in a frame.
pub const FRAME_WORDS: usize = 512;

/// The word at `index` of the frame at `paddr`, if there is such a frame and
/// such a word.
pub open spec fn frame_word(frames: Map<usize, Seq<u64>>, paddr: usize, index: int) -> Option<u64> {
    if frames.contains_key(paddr) && 0 <= index < frames[paddr].len() {
        Some(frames[paddr][index])
    } else {
        None
    }
}

/// Every frame starts at a multiple of the frame size other than zero and
/// holds 512 words.
pub open spec fn frames_well_formed(frames: Map<usize, Seq<u64>>) -> bool {
    forall|p: usize| #[trigger]
        frames.contains_key(p) ==> p != 0 && p % FRAME_SIZE == 0 && frames[p].len() == FRAME_WORDS
}

/// The addresses of `num` frames in a row, the first at `paddr`.
pub open spec fn frame_run(paddr: usize, num: usize) -> Set<usize> {
    Set::new(
        |f: usize| paddr <= f < paddr + num * FRAME_SIZE && (f - paddr) % (FRAME_SIZE as int) == 0,
    )
}

/// The address of the frame with the number `k` of a run from `paddr` on.
pub open spec fn frame_in_run(paddr: usize, k: usize) -> usize {
    (paddr + k * FRAME_SIZE) as usize
}

/// `after` holds the frames of `before`, each with its words unchanged, and
/// the frames of `fresh`, which `before` did not hold.
pub open spec fn frames_added(
    before: Map<usize, Seq<u64>>,
    after: Map<usize, Seq<u64>>,
    fresh: Set<usize>,
) -> bool {
    &&& after.dom() =~= before.dom().union(fresh)
    &&& before.dom().disjoint(fresh)
    &&& forall|p: usize| #[trigger] before.contains_key(p) ==> after[p] == before[p]
}

/// The low-level **OS-dependent** helpers that must be provided for a page
/// table: allocation of table frames and access to their words.
pub trait PagingHandler: Sized {
    /// The frames that are allocated, and what each holds.
    spec fn frames(&self) -> Map<usize, Seq<u64>>;

    /// What the handler needs to hold of itself between calls.
    spec fn inv(&self) -> bool;

    /// A valid handler holds only well-formed frames.
    proof fn lemma_inv(&self)
        requires
            self.inv(),
        ensures
            frames_well_formed(self.frames()),
    ;

    /// Request to allocate a 4K-sized physical frame. Nothing is promised of
    /// what the new frame holds.
    fn alloc_frame(&mut self) -> (r: Option<usize>)
        requires
            old(self).inv(),
        ensures
            final(self).inv(),
            match r {
                Some(p) => frames_added(old(self).frames(), final(self).frames(), set![p]),
                None => final(self).frames() == old(self).frames(),
            },
    ;

    /// Request to allocate `num` contiguous 4K-sized frames, the first at a
    /// multiple of `align`. The alignment is asked for and not taken on
    /// trust: a caller that depends on it checks the address that it gets.
    fn alloc_frames(&mut self, num: usize, align: usize) -> (r: Option<usize>)
        requires
            old(self).inv(),
            num > 0,
            align > 0,
            align % FRAME_SIZE == 0,
        ensures
            final(self).inv(),
            match r {
                Some(p) => {
                    &&& p + num * FRAME_SIZE <= usize::MAX
                    &&& frames_added(old(self).frames(), final(self).frames(), frame_run(p, num))
                },
                None => final(self).frames() == old(self).frames(),
            },
    ;

    /// Request to free a allocated physical frame. A frame that is not
    /// allocated cannot be freed.
    fn dealloc_frame(&mut self, paddr: usize)
        requires
            old(self).inv(),
            old(self).frames().contains_key(paddr),
        ensures
            final(self).inv(),
            final(self).frames() == old(self).frames().remove(paddr),
    ;

    /// Request to free `num` contiguous frames, the first at `paddr`, all of
    /// which are allocated.
    fn dealloc_frames(&mut self, paddr: usize, num: usize)
        requires
            old(self).inv(),
            paddr + num * FRAME_SIZE <= usize::MAX,
            frame_run(paddr, num).subset_of(old(self).frames().dom()),
        ensures
            final(self).inv(),
            final(self).frames() == old(self).frames().remove_keys(frame_run(paddr, num)),
    ;

    /// Reads the word at `index` of the frame at `paddr`.
    fn read(&self, paddr: usize, index: usize) -> (r: Option<u64>)
        requires
            self.inv(),
        ensures
            r == frame_word(self.frames(), paddr, index as int),
    ;

    /// Writes the word at `index` of the frame at `paddr`, and tells whether
    /// there is such a word.
    fn write(&mut self, paddr: usize, index: usize, word: u64) -> (ok: bool)
        requires
            old(self).inv(),
        ensures
            final(self).inv(),
            ok == frame_word(old(self).frames(), paddr, index as int).is_some(),
            ok ==> final(self).frames() == old(self).frames().insert(
                paddr,
                old(self).frames()[paddr].update(index as int, word),
            ),
            !ok ==> final(self).frames() == old(self).frames(),
    ;
}

/// Gives the frame at `paddr` back to the handler, if there is such a frame:
/// nothing is freed that is not allocated.
pub fn free_frame<H: PagingHandler>(handler: &mut H, paddr: usize)
    requires
        old(handler).inv(),
    ensures
        final(handler).inv(),
        final(handler).frames() == old(handler).frames().remove(paddr),
{
    proof {
        handler.lemma_inv();
    }
    if handler.read(paddr, 0).is_some() {
        handler.dealloc_frame(paddr);
    } else {
        assert(handler.frames() =~= handler.frames().remove(paddr));
    }
}

/// Gives the `num` frames in a row from `paddr` on back to the handler: as
/// one run if they are all allocated, and else those of them that are, one
/// by one.
pub fn free_frames<H: PagingHandler>(handler: &mut H, paddr: usize, num: usize)
    requires
        old(handler).inv(),
    ensures
        final(handler).inv(),
        final(handler).frames() == old(handler).frames().remove_keys(frame_run(paddr, num)),
{
    let ghost before = handler.frames();
    proof {
        handler.lemma_inv();
    }
    let fits: bool = num <= usize::MAX / FRAME_SIZE && paddr <= usize::MAX - num * FRAME_SIZE;
    let mut all: bool = fits;
    let mut k: usize = 0;
    while all && k < num
        invariant
            handler.inv(),
            handler.frames() == before,
            frames_well_formed(before),
            k <= num,
            all ==> paddr + num * FRAME_SIZE <= usize::MAX,
            all ==> forall|j: usize|
                j < k ==> before.contains_key(#[trigger] frame_in_run(paddr, j)),
        decreases num - k,
    {
        assert(k * FRAME_SIZE <= num * FRAME_SIZE) by (nonlinear_arith)
            requires
                k <= num,
        ;
        if handler.read(paddr + k * FRAME_SIZE, 0).is_none() {
            all = false;
        }
        k = k + 1;
    }
    if all {
        proof {
            assert forall|f: usize| frame_run(paddr, num).contains(f) implies before.contains_key(
                f,
            ) by {
                let j = ((f - paddr) / (FRAME_SIZE as int)) as usize;
                assert(f == paddr + j * FRAME_SIZE);
                assert(j < num) by (nonlinear_arith)
                    requires
                        paddr + j * FRAME_SIZE < paddr + num * FRAME_SIZE,
                ;
                assert(f == frame_in_run(paddr, j));
            }
        }
        handler.dealloc_frames(paddr, num);
        return ;
    }
    let mut i: usize = 0;
    let mut cur: usize = paddr;
    let mut more: bool = true;
    while i < num && more
        invariant
            handler.inv(),
            i <= num,
            more ==> cur == paddr + i * FRAME_SIZE,
            !more ==> paddr + i * FRAME_SIZE > usize::MAX,
            handler.frames() =~= before.remove_keys(frame_run(paddr, i)),
        decreases num - i,
    {
        free_frame(handler, cur);
        proof {
            assert((i + 1) * FRAME_SIZE == i * FRAME_SIZE + FRAME_SIZE) by (nonlinear_arith);
            assert(frame_run(paddr, (i + 1) as usize) =~= frame_run(paddr, i).insert(cur));
        }
        i = i + 1;
        if cur > usize::MAX - FRAME_SIZE {
            more = false;
        } else {
            cur = cur + FRAME_SIZE;
        }
    }
    proof {
        assert(frame_run(paddr, num) =~= frame_run(paddr, i)) by {
            assert forall|f: usize|
                frame_run(paddr, num).contains(f) == frame_run(paddr, i).contains(f) by {
                if i < num {
                    assert(i * FRAME_SIZE <= num * FRAME_SIZE) by (nonlinear_arith)
                        requires
                            i <= num,
                            FRAME_SIZE == 4096,
                    ;
                }
            }
        }
    }
}

} // verus!
