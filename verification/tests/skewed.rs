use page_table_multiarch::arch::arm::A32PagingMetaData;
use page_table_multiarch::arena::FrameArena;
use page_table_multiarch::entry::arm::A32PTE;
use page_table_multiarch::{PageTable32, PagingError, PagingHandler};

/// A handler that gives runs of frames wherever they fit.
struct Skewed {
    inner: FrameArena,
}

impl PagingHandler for Skewed {
    // The three items of the model are never run.
    fn frames(&self) -> vstd::map::Map<usize, vstd::seq::Seq<u64>> {
        self.inner.frames()
    }

    fn inv(&self) -> bool {
        self.inner.inv()
    }

    fn lemma_inv(&self) {}

    fn alloc_frame(&mut self) -> Option<usize> {
        self.inner.alloc_frame()
    }

    fn alloc_frames(&mut self, num: usize, _align: usize) -> Option<usize> {
        self.inner.alloc_frames(num, 0x1000)
    }

    fn dealloc_frame(&mut self, paddr: usize) {
        self.inner.dealloc_frame(paddr)
    }

    fn dealloc_frames(&mut self, paddr: usize, num: usize) {
        self.inner.dealloc_frames(paddr, num)
    }

    fn read(&self, paddr: usize, index: usize) -> Option<u64> {
        self.inner.read(paddr, index)
    }

    fn write(&mut self, paddr: usize, index: usize, word: u64) -> bool {
        self.inner.write(paddr, index, word)
    }
}

#[test]
fn root_off_the_alignment_is_refused() {
    let mut handler = Skewed { inner: FrameArena::new(64) };
    // the first run of frames starts at 0x1000
    let made = PageTable32::<A32PagingMetaData, A32PTE, Skewed>::try_new(&mut handler);
    assert!(matches!(made, Err(PagingError::NotAligned)));
    assert_eq!(handler.inner.allocated(), 0);
}

#[test]
fn root_on_the_alignment_is_taken() {
    let mut handler = Skewed { inner: FrameArena::new(64) };
    for _ in 0..3 {
        handler.inner.alloc_frame().unwrap();
    }
    // the next run of frames starts at 0x4000
    let made = PageTable32::<A32PagingMetaData, A32PTE, Skewed>::try_new(&mut handler);
    let table = made.unwrap();
    assert_eq!(table.root_paddr(), 0x4000);
    table.destroy(&mut handler);
    assert_eq!(handler.inner.allocated(), 3);
}
