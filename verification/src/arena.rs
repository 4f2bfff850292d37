//! A handler that keeps its frames in ordinary memory.
//!
//! The frames of a [`FrameArena`] are numbered from zero, and the frame with
//! the number `k` has the physical address `(k + 1) * 4096`. A single frame
//! is the free one with the lowest number, and a run of frames lies behind
//! every number that was used before. The arena never uses a number from its
//! limit on, so that a caller can see what a page table does when memory
//! runs out.

use vstd::prelude::*;
use crate::entry::GenericPTE;
use crate::handler::{frame_run, PagingHandler, FRAME_SIZE, FRAME_WORDS};

verus! {

/// The greatest number of frames that an arena can be made for. Their
/// addresses fit in 32 bits.
pub const MAX_FRAMES: usize = 0xf_fffe;

/// The word that a frame is filled with when it is handed out.
pub const FRESH_WORD: u64 = 0xa5a5_a5a5_a5a5_a5a5;

/// A handler whose frames are vectors of words.
pub struct FrameArena {
    slots: Vec<Option<Vec<u64>>>,
    limit: usize,
}

/// The number of the frame at `paddr`, counted from zero.
pub open spec fn slot_of(paddr: usize) -> int {
    paddr / FRAME_SIZE - 1
}

/// The address of the frame with the number `k`.
pub open spec fn frame_at(k: int) -> int {
    (k + 1) * FRAME_SIZE
}

/// What a frame holds when it is handed out: [`FRESH_WORD`] in every word.
pub open spec fn fresh_words() -> Seq<u64> {
    Seq::new(FRAME_WORDS as nat, |i: int| FRESH_WORD)
}

/// The first number from `from` on whose frame starts at a multiple of
/// `align`, or `limit` where there is none below it.
pub open spec fn aligned_slot(from: int, limit: int, align: int) -> int
    decreases limit - from,
{
    if from < limit && frame_at(from) % align != 0 {
        aligned_slot(from + 1, limit, align)
    } else {
        from
    }
}

impl FrameArena {
    /// Whether there is a frame at `paddr`.
    pub closed spec fn holds(&self, paddr: usize) -> bool {
        &&& paddr % FRAME_SIZE == 0
        &&& paddr >= FRAME_SIZE
        &&& slot_of(paddr) < self.slots.len()
        &&& self.slots[slot_of(paddr)] is Some
    }

    /// The greatest number of frames that the arena holds at a time.
    pub closed spec fn spec_limit(&self) -> usize {
        self.limit
    }

    /// The number of frame numbers that the arena has used so far: every
    /// frame has a number below it, and runs of frames are made from it on.
    pub closed spec fn spec_used(&self) -> usize {
        self.slots.len()
    }

    /// Whether the frame with the number `k` can be handed out: the number
    /// is below the limit and there is no such frame.
    pub open spec fn is_free(&self, k: int) -> bool {
        0 <= k < self.spec_limit() && !self.frames().contains_key(frame_at(k) as usize)
    }

    /// An arena with no frame yet, which will hold at most `limit` frames at
    /// a time, and never more than [`MAX_FRAMES`].
    pub fn new(limit: usize) -> (r: FrameArena)
        ensures
            r.inv(),
            r.frames() == Map::<usize, Seq<u64>>::empty(),
            r.spec_used() == 0,
            r.spec_limit() == if limit > MAX_FRAMES {
                MAX_FRAMES
            } else {
                limit
            },
    {
        let limit: usize = if limit > MAX_FRAMES {
            MAX_FRAMES
        } else {
            limit
        };
        let r = FrameArena { slots: Vec::new(), limit };
        assert(r.frames() =~= Map::<usize, Seq<u64>>::empty());
        r
    }

    /// The addresses of the frames in the slots before `upto`.
    pub closed spec fn live_before(&self, upto: int) -> Set<usize> {
        Set::new(|p: usize| self.holds(p) && slot_of(p) < upto)
    }

    /// The number of frames that are allocated.
    #[verifier::rlimit(50)]
    pub fn allocated(&self) -> (r: usize)
        requires
            self.inv(),
        ensures
            self.frames().dom().finite(),
            r == self.frames().dom().len(),
    {
        let mut count: usize = 0;
        let mut k: usize = 0;
        assert(self.live_before(0) =~= Set::<usize>::empty());
        while k < self.slots.len()
            invariant
                self.inv(),
                k <= self.slots.len(),
                count <= k,
                self.live_before(k as int).finite(),
                self.live_before(k as int).len() == count,
            decreases self.slots.len() - k,
        {
            if self.slots[k].is_some() {
                proof {
                    let p = ((k + 1) * FRAME_SIZE) as usize;
                    assert(slot_of(p) == k);
                    assert(self.live_before(k + 1) =~= self.live_before(k as int).insert(p)) by {
                        assert forall|q: usize|
                            self.live_before(k + 1).contains(q) == (self.live_before(
                                k as int,
                            ).contains(q) || q == p) by {
                            if self.holds(q) && slot_of(q) == k {
                                assert(q == (slot_of(q) + 1) * FRAME_SIZE);
                            }
                        }
                    }
                }
                count = count + 1;
            } else {
                proof {
                    assert(self.live_before(k + 1) =~= self.live_before(k as int)) by {
                        assert forall|q: usize|
                            self.live_before(k + 1).contains(q) == self.live_before(
                                k as int,
                            ).contains(q) by {}
                    }
                }
            }
            k = k + 1;
        }
        proof {
            assert(self.frames().dom() =~= self.live_before(self.slots.len() as int));
        }
        count
    }

    /// Whether the frame at `paddr` is allocated.
    pub fn is_allocated(&self, paddr: usize) -> (r: bool)
        requires
            self.inv(),
        ensures
            r == self.frames().contains_key(paddr),
    {
        if paddr % FRAME_SIZE != 0 || paddr < FRAME_SIZE {
            return false;
        }
        let k: usize = paddr / FRAME_SIZE - 1;
        k < self.slots.len() && self.slots[k].is_some()
    }

    /// Table descriptors of every kind can point to all the frames of an
    /// arena: they lie in the first four gigabytes.
    pub proof fn lemma_frames_fit<PTE: GenericPTE>(&self)
        requires
            self.inv(),
        ensures
            crate::walk64::frames_fit::<PTE>(self.frames()),
            crate::walk32::frames_fit::<PTE>(self.frames()),
    {
        assert forall|p: usize| #[trigger] self.frames().contains_key(p)
            implies PTE::spec_holds_table(p) by {
            assert(self.holds(p));
            assert(p == (slot_of(p) + 1) * FRAME_SIZE);
            PTE::lemma_holds_low(p);
        }
    }

    /// Takes the frame at `paddr` back, if there is one.
    fn drop_frame(&mut self, paddr: usize)
        requires
            old(self).inv(),
        ensures
            final(self).inv(),
            final(self).frames() == old(self).frames().remove(paddr),
            final(self).spec_limit() == old(self).spec_limit(),
            final(self).spec_used() == old(self).spec_used(),
    {
        let ghost before = *self;
        if paddr % FRAME_SIZE == 0 && paddr >= FRAME_SIZE {
            let k: usize = paddr / FRAME_SIZE - 1;
            if k < self.slots.len() {
                self.slots.set(k, None);
            }
        }
        proof {
            assert forall|p: usize| self.holds(p) == (before.holds(p) && p != paddr) by {
                if p % FRAME_SIZE == 0 && p >= FRAME_SIZE && paddr % FRAME_SIZE == 0 && paddr
                    >= FRAME_SIZE && p != paddr {
                    assert(slot_of(p) != slot_of(paddr));
                }
            }
            assert(self.frames() =~= before.frames().remove(paddr));
        }
    }


    /// A frame as it is handed out: 512 words, none of them zero.
    fn fresh_frame() -> (r: Vec<u64>)
        ensures
            r.len() == FRAME_WORDS,
            r@ == fresh_words(),
    {
        let mut words: Vec<u64> = Vec::new();
        let mut i: usize = 0;
        while i < FRAME_WORDS
            invariant
                i <= FRAME_WORDS,
                words.len() == i,
                forall|j: int| 0 <= j < i ==> words[j] == FRESH_WORD,
            decreases FRAME_WORDS - i,
        {
            words.push(FRESH_WORD);
            i = i + 1;
        }
        assert(words@ =~= fresh_words());
        words
    }
}

impl PagingHandler for FrameArena {
    closed spec fn frames(&self) -> Map<usize, Seq<u64>> {
        Map::new(|p: usize| self.holds(p), |p: usize| self.slots[slot_of(p)].unwrap()@)
    }

    closed spec fn inv(&self) -> bool {
        &&& self.slots.len() <= self.limit
        &&& self.limit <= MAX_FRAMES
        &&& forall|k: int|
            0 <= k < self.slots.len() && (#[trigger] self.slots[k]) is Some
                ==> self.slots[k].unwrap().len() == FRAME_WORDS
    }

    proof fn lemma_inv(&self) {
    }

    /// Hands out the free frame with the lowest number, filled with
    /// [`FRESH_WORD`], and fails where no number below the limit is free.
    fn alloc_frame(&mut self) -> (r: Option<usize>)
        ensures
            final(self).spec_limit() == old(self).spec_limit(),
            match r {
                Some(p) => {
                    &&& p == frame_at(slot_of(p))
                    &&& old(self).is_free(slot_of(p))
                    &&& forall|j: int| 0 <= j < slot_of(p) ==> !old(self).is_free(j)
                    &&& final(self).frames()[p] == fresh_words()
                    &&& final(self).spec_used() == if slot_of(p) < old(self).spec_used() {
                        old(self).spec_used() as int
                    } else {
                        slot_of(p) + 1
                    }
                },
                None => {
                    &&& forall|j: int| !old(self).is_free(j)
                    &&& final(self).spec_used() == old(self).spec_used()
                },
            },
    {
        let ghost before = *self;
        let mut k: usize = 0;
        while k < self.slots.len() && self.slots[k].is_some()
            invariant
                k <= self.slots.len(),
                *self == before,
                forall|j: int| 0 <= j < k ==> (#[trigger] self.slots[j]) is Some,
            decreases self.slots.len() - k,
        {
            k = k + 1;
        }
        proof {
            assert forall|j: int| 0 <= j < k implies !before.is_free(j) by {
                let q = frame_at(j) as usize;
                assert(slot_of(q) == j);
                assert(before.slots[j] is Some);
                assert(before.holds(q));
            }
        }
        if k == self.slots.len() {
            if self.slots.len() >= self.limit {
                proof {
                    assert forall|j: int| !before.is_free(j) by {
                        if 0 <= j < before.limit {
                            assert(j < k);
                        }
                    }
                }
                return None;
            }
            self.slots.push(Some(Self::fresh_frame()));
        } else {
            self.slots.set(k, Some(Self::fresh_frame()));
        }
        let paddr: usize = (k + 1) * FRAME_SIZE;
        proof {
            assert(slot_of(paddr) == k);
            assert(self.holds(paddr));
            assert(!before.holds(paddr));
            assert(before.is_free(k as int));
            assert forall|p: usize| p != paddr implies before.holds(p) == self.holds(p) by {
                if p % FRAME_SIZE == 0 && p >= FRAME_SIZE {
                    assert(slot_of(p) != k);
                }
            }
            assert(self.frames().dom() =~= before.frames().dom().union(set![paddr]));
            assert forall|p: usize| #[trigger] before.frames().contains_key(p) implies self.frames()[p]
                == before.frames()[p] by {
                assert(slot_of(p) != k);
            }
        }
        Some(paddr)
    }

    /// Makes a run of `num` frames, filled with [`FRESH_WORD`], from the
    /// first number that was not used yet and whose frame starts at a
    /// multiple of `align`, and fails where the run would pass the limit.
    /// The numbers that are passed over count as used from then on.
    #[verifier::rlimit(50)]
    fn alloc_frames(&mut self, num: usize, align: usize) -> (r: Option<usize>)
        ensures
            final(self).spec_limit() == old(self).spec_limit(),
            ({
                let first = aligned_slot(
                    old(self).spec_used() as int,
                    old(self).spec_limit() as int,
                    align as int,
                );
                &&& r is Some <==> first + num <= old(self).spec_limit()
                &&& r is Some ==> {
                    &&& r.unwrap() == frame_at(first)
                    &&& r.unwrap() % align == 0
                    &&& final(self).spec_used() == first + num
                    &&& forall|k: int|
                        first <= k < first + num ==> #[trigger] final(self).frames()[frame_at(
                            k,
                        ) as usize] == fresh_words()
                }
                &&& r is None ==> final(self).spec_used() == first
            }),
    {
        let ghost before = *self;
        while self.slots.len() < self.limit && ((self.slots.len() + 1) * FRAME_SIZE) % align != 0
            invariant
                align > 0,
                self.inv(),
                self.limit == before.limit,
                before.slots.len() <= self.slots.len(),
                aligned_slot(self.slots.len() as int, self.limit as int, align as int)
                    == aligned_slot(before.slots.len() as int, before.limit as int, align as int),
                forall|j: int| 0 <= j < before.slots.len() ==> self.slots[j] == before.slots[j],
                forall|j: int| before.slots.len() <= j < self.slots.len() ==> self.slots[j] is None,
            decreases self.limit - self.slots.len(),
        {
            self.slots.push(None);
        }
        proof {
            assert forall|p: usize| before.holds(p) == self.holds(p) by {}
            assert(self.frames() =~= before.frames());
        }
        let first: usize = self.slots.len();
        if num > self.limit - first || ((first + 1) * FRAME_SIZE) % align != 0 {
            return None;
        }
        let paddr: usize = (first + 1) * FRAME_SIZE;
        let ghost padded = *self;
        let mut i: usize = 0;
        while i < num
            invariant
                i <= num,
                first + num <= self.limit,
                self.limit == padded.limit,
                self.limit <= MAX_FRAMES,
                self.slots.len() == first + i,
                padded.slots.len() == first,
                forall|j: int| 0 <= j < first ==> self.slots[j] == padded.slots[j],
                forall|j: int|
                    first <= j < first + i ==> (#[trigger] self.slots[j]) is Some
                        && self.slots[j].unwrap().len() == FRAME_WORDS
                        && self.slots[j].unwrap()@ == fresh_words(),
                padded.inv(),
            decreases num - i,
        {
            self.slots.push(Some(Self::fresh_frame()));
            i = i + 1;
        }
        proof {
            let run = frame_run(paddr, num);
            assert(self.inv()) by {
                assert forall|k: int|
                    0 <= k < self.slots.len() && (#[trigger] self.slots[k]) is Some
                        implies self.slots[k].unwrap().len() == FRAME_WORDS by {
                    if k < first {
                        assert(self.slots[k] == padded.slots[k]);
                    }
                }
            }
            assert forall|p: usize| self.holds(p) == (padded.holds(p) || run.contains(p)) by {
                if p % FRAME_SIZE == 0 && p >= FRAME_SIZE {
                    let k = slot_of(p);
                    assert(p == (k + 1) * FRAME_SIZE);
                    if k >= first && k < first + num {
                        assert(self.slots[k] is Some);
                        assert(run.contains(p));
                    }
                    if k < first {
                        assert(self.slots[k] == padded.slots[k]);
                    }
                }
            }
            assert(self.frames().dom() =~= before.frames().dom().union(run));
            assert(before.frames().dom().disjoint(run)) by {
                assert forall|p: usize| !(before.frames().dom().contains(p) && run.contains(
                    p,
                )) by {
                    if run.contains(p) && p % FRAME_SIZE == 0 && p >= FRAME_SIZE {
                        assert(p == (slot_of(p) + 1) * FRAME_SIZE);
                    }
                }
            }
            assert forall|p: usize| #[trigger] before.frames().contains_key(p) implies self.frames()[p]
                == before.frames()[p] by {
                assert(padded.holds(p));
                assert(self.slots[slot_of(p)] == padded.slots[slot_of(p)]);
                assert(padded.slots[slot_of(p)] == before.slots[slot_of(p)]);
            }
            assert forall|k: int| first <= k < first + num implies #[trigger] self.frames()[frame_at(
                k,
            ) as usize] == fresh_words() by {
                let q = frame_at(k) as usize;
                assert(slot_of(q) == k);
                assert(self.slots[k] is Some);
                assert(self.holds(q));
            }
        }
        Some(paddr)
    }

    fn dealloc_frame(&mut self, paddr: usize)
        ensures
            final(self).spec_limit() == old(self).spec_limit(),
            final(self).spec_used() == old(self).spec_used(),
    {
        self.drop_frame(paddr)
    }

    #[verifier::rlimit(50)]
    fn dealloc_frames(&mut self, paddr: usize, num: usize)
        ensures
            final(self).spec_limit() == old(self).spec_limit(),
            final(self).spec_used() == old(self).spec_used(),
    {
        let ghost before = *self;
        let mut i: usize = 0;
        let mut cur: usize = paddr;
        let mut more: bool = true;
        while i < num && more
            invariant
                self.inv(),
                self.spec_limit() == before.spec_limit(),
                self.spec_used() == before.spec_used(),
                i <= num,
                more ==> cur == paddr + i * FRAME_SIZE,
                !more ==> paddr + i * FRAME_SIZE > usize::MAX,
                self.frames() =~= before.frames().remove_keys(frame_run(paddr, i)),
            decreases num - i,
        {
            self.drop_frame(cur);
            proof {
                assert(frame_run(paddr, (i + 1) as usize) =~= frame_run(paddr, i).insert(cur)) by {
                    assert forall|f: usize|
                        frame_run(paddr, (i + 1) as usize).contains(f) == (frame_run(
                            paddr,
                            i,
                        ).contains(f) || f == cur) by {
                        assert((i + 1) * FRAME_SIZE == i * FRAME_SIZE + FRAME_SIZE)
                            by (nonlinear_arith);
                    }
                }
                assert((i + 1) * FRAME_SIZE == i * FRAME_SIZE + FRAME_SIZE) by (nonlinear_arith);
            }
            i = i + 1;
            if cur > usize::MAX - FRAME_SIZE {
                more = false;
            } else {
                cur = cur + FRAME_SIZE;
            }
        }
        proof {
            assert(frame_run(paddr, num) =~= frame_run(paddr, i)) by {
                assert forall|f: usize|
                    frame_run(paddr, num).contains(f) == frame_run(paddr, i).contains(f) by {
                    if i < num {
                        assert(i * FRAME_SIZE <= num * FRAME_SIZE) by (nonlinear_arith)
                            requires
                                i <= num,
                                FRAME_SIZE == 4096,
                        ;
                    }
                }
            }
        }
    }

    fn read(&self, paddr: usize, index: usize) -> (r: Option<u64>) {
        if paddr % FRAME_SIZE != 0 || paddr < FRAME_SIZE {
            return None;
        }
        let k: usize = paddr / FRAME_SIZE - 1;
        if k >= self.slots.len() {
            return None;
        }
        match &self.slots[k] {
            Some(words) => if index < words.len() {
                Some(words[index])
            } else {
                None
            },
            None => None,
        }
    }

    fn write(&mut self, paddr: usize, index: usize, word: u64) -> (ok: bool)
        ensures
            final(self).spec_limit() == old(self).spec_limit(),
            final(self).spec_used() == old(self).spec_used(),
    {
        let ghost before = *self;
        if paddr % FRAME_SIZE != 0 || paddr < FRAME_SIZE {
            return false;
        }
        let k: usize = paddr / FRAME_SIZE - 1;
        if k >= self.slots.len() {
            return false;
        }
        let mut words: Vec<u64> = match self.slots[k].take() {
            Some(words) => words,
            None => { return false; },
        };
        if index >= words.len() {
            self.slots.set(k, Some(words));
            return false;
        }
        words.set(index, word);
        self.slots.set(k, Some(words));
        proof {
            assert forall|p: usize| self.holds(p) == before.holds(p) by {}
            assert(self.frames() =~= before.frames().insert(
                paddr,
                before.frames()[paddr].update(index as int, word),
            ));
        }
        true
    }
}

} // verus!
