use std::collections::HashSet;
use std::marker::PhantomData;

use page_table_multiarch::arch::aarch64::A64PagingMetaData;
use page_table_multiarch::arch::loongarch64::LA64MetaData;
use page_table_multiarch::arch::riscv::{Sv39MetaData, Sv48MetaData};
use page_table_multiarch::arch::x86_64::X64PagingMetaData;
use page_table_multiarch::arena::FrameArena;
use page_table_multiarch::entry::loongarch64::LA64PTE;
use page_table_multiarch::entry::x86_64::X64PTE;
use page_table_multiarch::{
    EqPageTable64Ext, GenericPTE, MappingFlags, PageSize, PageTable64, PagingHandler,
    PagingMetaData, PagingResult,
};
use rand::{rngs::SmallRng, Rng, SeedableRng};

/// A handler that keeps track of the frames that are out, and panics when a
/// frame is given back that is not.
struct TrackPagingHandler<M: PagingMetaData> {
    arena: FrameArena,
    allocated: HashSet<usize>,
    _phantom: PhantomData<M>,
}

impl<M: PagingMetaData> TrackPagingHandler<M> {
    fn new() -> Self {
        TrackPagingHandler {
            arena: FrameArena::new(0x10000),
            allocated: HashSet::new(),
            _phantom: PhantomData,
        }
    }

    fn taken(&mut self, frame: usize) {
        assert!(
            (frame as u64) < (1u64 << M::pa_max_bits()),
            "allocated frame address exceeds PA_MAX_ADDR"
        );
        assert!(self.allocated.insert(frame), "a frame was handed out twice");
    }
}

impl<M: PagingMetaData> PagingHandler for TrackPagingHandler<M> {
    // The three items of the model are never run.
    fn frames(&self) -> vstd::map::Map<usize, vstd::seq::Seq<u64>> {
        self.arena.frames()
    }

    fn inv(&self) -> bool {
        self.arena.inv()
    }

    fn lemma_inv(&self) {}

    fn alloc_frame(&mut self) -> Option<usize> {
        let frame = self.arena.alloc_frame()?;
        self.taken(frame);
        Some(frame)
    }

    fn alloc_frames(&mut self, num: usize, align: usize) -> Option<usize> {
        let first = self.arena.alloc_frames(num, align)?;
        for k in 0..num {
            self.taken(first + k * 0x1000);
        }
        Some(first)
    }

    fn dealloc_frame(&mut self, paddr: usize) {
        assert!(
            self.allocated.remove(&paddr),
            "dealloc a frame that was not allocated"
        );
        self.arena.dealloc_frame(paddr)
    }

    fn dealloc_frames(&mut self, paddr: usize, num: usize) {
        for k in 0..num {
            self.dealloc_frame(paddr + k * 0x1000);
        }
    }

    fn read(&self, paddr: usize, index: usize) -> Option<u64> {
        assert!(paddr > 0);
        self.arena.read(paddr, index)
    }

    fn write(&mut self, paddr: usize, index: usize, word: u64) -> bool {
        assert!(paddr > 0);
        self.arena.write(paddr, index, word)
    }
}

fn run_test_for<M: PagingMetaData, PTE: GenericPTE>() -> PagingResult<()> {
    let mut arena = TrackPagingHandler::<M>::new();

    let vaddr_mask = ((1u64 << M::va_max_bits()) - 1) & !0xfff;

    let table = PageTable64::<M, PTE, TrackPagingHandler<M>>::try_new(&mut arena).unwrap();
    let mut cursor = table.cursor();
    let mut pages = HashSet::new();
    let mut rng = SmallRng::seed_from_u64(1234);
    for _ in 0..2048 {
        if rng.random_ratio(3, 4) || pages.is_empty() {
            // insert a mapping
            let addr = loop {
                let addr = rng.random::<u64>() & vaddr_mask;
                if pages.insert(addr) {
                    break addr;
                }
            };
            cursor.map(
                &mut arena,
                addr as usize,
                (rng.random::<u64>() & vaddr_mask) as usize,
                PageSize::Size4K,
                MappingFlags::read() | MappingFlags::write(),
            )?;
        } else {
            // remove a mapping
            let addr = *pages.iter().next().unwrap();
            cursor.unmap(&mut arena, addr as usize)?;
            pages.remove(&addr);
        }
    }

    let (table, _) = cursor.finish();
    table.destroy(&mut arena);
    assert_eq!(
        arena.allocated.len(),
        0,
        "Some frames were not deallocated"
    );
    assert_eq!(arena.arena.allocated(), 0);

    Ok(())
}

#[test]
fn test_dealloc_x86() -> PagingResult<()> {
    run_test_for::<X64PagingMetaData, X64PTE>()?;
    Ok(())
}

#[test]
fn test_dealloc_riscv() -> PagingResult<()> {
    run_test_for::<Sv39MetaData<usize>, X64PTE>()?;
    run_test_for::<Sv48MetaData<usize>, X64PTE>()?;
    Ok(())
}

#[test]
fn test_dealloc_aarch64() -> PagingResult<()> {
    run_test_for::<A64PagingMetaData, X64PTE>()?;
    Ok(())
}

#[test]
fn test_dealloc_loongarch64() -> PagingResult<()> {
    run_test_for::<LA64MetaData, LA64PTE>()?;
    Ok(())
}

#[test]
fn nothing_is_freed_that_is_not_allocated() {
    type Handler = TrackPagingHandler<X64PagingMetaData>;
    let mut handler = Handler::new();
    // a table whose root was never allocated
    let table =
        EqPageTable64Ext::<X64PagingMetaData, X64PTE, Handler, Handler>::from_paddr(0x5000, None)
            .unwrap();
    table.destroy(&mut handler);
    assert_eq!(handler.allocated.len(), 0);

    // a tree that points to a table that is gone
    let table = PageTable64::<X64PagingMetaData, X64PTE, Handler>::try_new(&mut handler).unwrap();
    let root = table.root_paddr();
    let mut cursor = table.cursor();
    cursor
        .map(&mut handler, 0x4000, 0x4000, PageSize::Size4K, MappingFlags::read())
        .unwrap();
    let lowest = X64PTE::from_raw(handler.read(root, 0).unwrap()).paddr();
    handler.dealloc_frame(lowest);
    let (table, _) = cursor.finish();
    // the two tables below the missing one cannot be reached any more
    table.destroy(&mut handler);
    assert_eq!(handler.allocated.len(), 2);
    assert!(!handler.allocated.contains(&root));
}
