//! Book-keeping of the translations that a batch of edits made stale.
//!
//! Every edit of a descriptor records the virtual address it was made for.
//! A commit then says what has to be invalidated: each recorded address on
//! its own while they are few, and everything at once when they were too
//! many to keep.

use vstd::prelude::*;
use arrayvec::ArrayVec;

verus! {

/// `arrayvec::ArrayVec`, a vector of at most `CAP` items that are kept in
/// place. Nothing of its inside is known here.
#[verifier::external_type_specification]
#[verifier::external_body]
#[verifier::reject_recursive_types(T)]
pub struct ExArrayVec<T, const CAP: usize>(ArrayVec<T, CAP>);

/// The number of addresses that are kept one by one.
pub const SMALL_FLUSH_THRESHOLD: usize = 32;

/// The addresses that a list holds, oldest first.
pub uninterp spec fn pending(list: ArrayVec<usize, 32>) -> Seq<usize>;

/// `ArrayVec::new` makes a list that holds nothing.
#[verifier::external_body]
fn list_new() -> (list: ArrayVec<usize, 32>)
    ensures
        pending(list) == Seq::<usize>::empty(),
{
    ArrayVec::new()
}

/// `ArrayVec::try_push` appends `vaddr` where the list holds fewer items than
/// its capacity of 32, and else leaves the list as it is and fails.
#[verifier::external_body]
fn list_try_push(list: &mut ArrayVec<usize, 32>, vaddr: usize) -> (ok: bool)
    ensures
        ok == (pending(*old(list)).len() < SMALL_FLUSH_THRESHOLD),
        pending(*final(list)) == if ok {
            pending(*old(list)).push(vaddr)
        } else {
            pending(*old(list))
        },
{
    list.try_push(vaddr).is_ok()
}

/// `ArrayVec::as_slice` gives the items of the list in their order.
#[verifier::external_body]
fn list_as_slice(list: &ArrayVec<usize, 32>) -> (items: &[usize])
    ensures
        items@ == pending(*list),
{
    list.as_slice()
}

/// What a flush accumulator stands for.
pub enum Pending {
    /// No edits since the last commit.
    Empty,
    /// The addresses that were edited, oldest first.
    List(Seq<usize>),
    /// More addresses were edited than are kept.
    Full,
}

/// What to invalidate for a state of the accumulator, in order: `Some` of an
/// address for the translation of that address, `None` for all of them.
pub open spec fn flush_requests(state: Pending) -> Seq<Option<usize>> {
    match state {
        Pending::Empty => Seq::empty(),
        Pending::List(addrs) => Seq::new(addrs.len(), |i: int| Some(addrs[i])),
        Pending::Full => seq![None],
    }
}

/// The state after one more address was edited.
pub open spec fn pushed(state: Pending, vaddr: usize) -> Pending {
    match state {
        Pending::Empty => Pending::List(seq![vaddr]),
        Pending::List(addrs) => if addrs.len() < SMALL_FLUSH_THRESHOLD {
            Pending::List(addrs.push(vaddr))
        } else {
            Pending::Full
        },
        Pending::Full => Pending::Full,
    }
}

/// The flush accumulator of an editing session.
pub enum TlbFlusher {
    /// No edits since the last commit.
    Empty,
    /// A small set of edited addresses.
    Array(ArrayVec<usize, 32>),
    /// Too many edits: everything has to be invalidated.
    Full,
}

impl TlbFlusher {
    /// What the accumulator stands for.
    pub open spec fn view(&self) -> Pending {
        match *self {
            TlbFlusher::Empty => Pending::Empty,
            TlbFlusher::Array(list) => Pending::List(pending(list)),
            TlbFlusher::Full => Pending::Full,
        }
    }

    /// An accumulator with nothing recorded.
    pub fn new() -> (r: TlbFlusher)
        ensures
            r@ == Pending::Empty,
    {
        TlbFlusher::Empty
    }

    /// Records that the translation of `vaddr` changed.
    pub fn push(&mut self, vaddr: usize)
        ensures
            final(self)@ == pushed(old(self)@, vaddr),
    {
        match self {
            TlbFlusher::Empty => {
                let mut arr = list_new();
                list_try_push(&mut arr, vaddr);
                assert(pending(arr) =~= seq![vaddr]);
                *self = TlbFlusher::Array(arr);
            },
            TlbFlusher::Array(arr) => {
                if !list_try_push(arr, vaddr) {
                    *self = TlbFlusher::Full;
                }
            },
            TlbFlusher::Full => {},
        }
    }

    /// Records that every translation may have changed.
    pub fn fill(&mut self)
        ensures
            final(self)@ == Pending::Full,
    {
        *self = TlbFlusher::Full;
    }

    /// Commits: returns what has to be invalidated, in order, and forgets it.
    /// Each recorded address comes once, in the order of recording, as
    /// `Some`; an accumulator that overflowed gives the single request `None`,
    /// which stands for everything; one with nothing recorded gives nothing.
    pub fn flush(&mut self) -> (requests: Vec<Option<usize>>)
        ensures
            requests@ == flush_requests(old(self)@),
            final(self)@ == Pending::Empty,
    {
        let mut requests: Vec<Option<usize>> = Vec::new();
        match self {
            TlbFlusher::Empty => {},
            TlbFlusher::Array(arr) => {
                let items = list_as_slice(arr);
                let mut i: usize = 0;
                while i < items.len()
                    invariant
                        i <= items.len(),
                        requests.len() == i,
                        forall|j: int| 0 <= j < i ==> requests[j] == Some(items[j]),
                    decreases items.len() - i,
                {
                    requests.push(Some(items[i]));
                    i = i + 1;
                }
                assert(requests@ =~= flush_requests(Pending::List(items@)));
            },
            TlbFlusher::Full => {
                requests.push(None);
                assert(requests@ =~= seq![None]);
            },
        }
        *self = TlbFlusher::Empty;
        requests
    }
}

/// The state after the addresses `addrs` were recorded one by one, from
/// nothing.
pub open spec fn recorded(addrs: Seq<usize>) -> Pending
    decreases addrs.len(),
{
    if addrs.len() == 0 {
        Pending::Empty
    } else {
        pushed(recorded(addrs.drop_last()), addrs.last())
    }
}

/// A commit asks for each recorded address exactly once, in the order of
/// recording, while there are no more than the threshold, and for
/// everything exactly once when there are more. After a commit nothing is
/// recorded, so that a second commit asks for nothing.
pub proof fn lemma_flush_requests(addrs: Seq<usize>)
    ensures
        0 < addrs.len() <= SMALL_FLUSH_THRESHOLD ==> recorded(addrs) == Pending::List(addrs),
        addrs.len() > SMALL_FLUSH_THRESHOLD ==> recorded(addrs) == Pending::Full,
        addrs.len() <= SMALL_FLUSH_THRESHOLD ==> {
            &&& flush_requests(recorded(addrs)).len() == addrs.len()
            &&& forall|i: int|
                0 <= i < addrs.len() ==> #[trigger] flush_requests(recorded(addrs))[i] == Some(
                    addrs[i],
                )
        },
        addrs.len() > SMALL_FLUSH_THRESHOLD ==> flush_requests(recorded(addrs)) == seq![
            None::<usize>,
        ],
        flush_requests(Pending::Empty) == Seq::<Option<usize>>::empty(),
    decreases addrs.len(),
{
    if addrs.len() > 0 {
        let init = addrs.drop_last();
        lemma_flush_requests(init);
        if init.len() == 0 {
            assert(seq![addrs.last()] =~= addrs);
        } else if init.len() < SMALL_FLUSH_THRESHOLD {
            assert(init.push(addrs.last()) =~= addrs);
        }
    }
}

} // verus!
