use page_table_multiarch::arch::arm::A32PagingMetaData;
use page_table_multiarch::arena::FrameArena;
use page_table_multiarch::bits32::root_from_frames;
use page_table_multiarch::entry::arm::A32PTE;
use page_table_multiarch::{
    GenericPTE, MappingFlags, PageSize, PageTable32, PagingError, PagingHandler,
};

type Table = PageTable32<A32PagingMetaData, A32PTE, FrameArena>;

fn rw() -> MappingFlags {
    MappingFlags::read() | MappingFlags::write()
}

#[test]
fn root_is_four_aligned_frames() {
    let mut arena = FrameArena::new(64);
    // push the next free frame off the alignment
    arena.alloc_frame().unwrap();
    let table = Table::try_new(&mut arena).unwrap();
    assert_eq!(table.root_paddr() % 0x4000, 0);
    assert_eq!(arena.allocated(), 5);
    for k in 0..4 {
        for i in 0..512 {
            assert_eq!(arena.read(table.root_paddr() + k * 0x1000, i), Some(0));
        }
    }
    table.destroy(&mut arena);
    assert_eq!(arena.allocated(), 1);
}

#[test]
fn no_memory_for_the_root() {
    let mut arena = FrameArena::new(3);
    assert!(matches!(Table::try_new(&mut arena), Err(PagingError::NoMemory)));
}

#[test]
fn small_page() {
    let mut arena = FrameArena::new(64);
    let mut table = Table::try_new(&mut arena).unwrap();
    let token = table
        .map(&mut arena, 0x4000_1000, 0x8000_2abc, PageSize::Size4K, rw())
        .unwrap();
    assert_eq!(token.flush(), Some(0x4000_1000));
    // one table of the second level
    assert_eq!(arena.allocated(), 5);
    assert_eq!(
        table.query(&arena, 0x4000_1234),
        Ok((0x8000_2234, PageSize::Size4K, rw()))
    );
    assert_eq!(table.query(&arena, 0x4000_2000), Err(PagingError::NotMapped));
    assert_eq!(table.query(&arena, 0x4010_0000), Err(PagingError::NotMapped));
    // the descriptor lies where the hardware looks for it: two to a word
    let l1 = A32PTE::from_raw(arena.read(table.root_paddr() + 0x1000, 0).unwrap());
    assert!(l1.is_present() && !l1.is_huge());
    let word = arena.read(l1.paddr(), 0).unwrap();
    assert_eq!(word & 0xffff_ffff, 0);
    assert_eq!(
        A32PTE::from_raw(word >> 32),
        A32PTE::new_small_page(0x8000_2000, rw())
    );
    table.destroy(&mut arena);
    assert_eq!(arena.allocated(), 0);
}

#[test]
fn section() {
    let mut arena = FrameArena::new(64);
    let mut table = Table::try_new(&mut arena).unwrap();
    table
        .map(&mut arena, 0x4010_0000, 0x8034_5678, PageSize::Size1M, rw())
        .unwrap()
        .ignore();
    assert_eq!(arena.allocated(), 4);
    assert_eq!(
        table.query(&arena, 0x4012_3456),
        Ok((0x8032_3456, PageSize::Size1M, rw()))
    );
    // a section in the first megabyte of memory
    table.map(&mut arena, 0, 0, PageSize::Size1M, rw()).unwrap().ignore();
    assert_eq!(table.query(&arena, 0x1234), Ok((0x1234, PageSize::Size1M, rw())));
    // a page below a section is refused
    assert!(matches!(
        table.map(&mut arena, 0x4010_1000, 0, PageSize::Size4K, rw()),
        Err(PagingError::AlreadyMapped)
    ));
    assert!(matches!(
        table.map(&mut arena, 0x4010_0000, 0, PageSize::Size1M, rw()),
        Err(PagingError::AlreadyMapped)
    ));
}

#[test]
fn unmap_remap_protect() {
    let mut arena = FrameArena::new(64);
    let mut table = Table::try_new(&mut arena).unwrap();
    table.map(&mut arena, 0x1000, 0x5000, PageSize::Size4K, rw()).unwrap().ignore();
    let (size, token) = table
        .protect(&mut arena, 0x1000, MappingFlags::read())
        .unwrap();
    assert_eq!(size, PageSize::Size4K);
    assert_eq!(token.flush(), Some(0x1000));
    assert_eq!(
        table.query(&arena, 0x1000),
        Ok((0x5000, PageSize::Size4K, MappingFlags::read()))
    );
    let (size, _) = table.remap(&mut arena, 0x1000, 0x7000, rw()).unwrap();
    assert_eq!(size, PageSize::Size4K);
    assert_eq!(table.query(&arena, 0x1000), Ok((0x7000, PageSize::Size4K, rw())));
    let (paddr, size, token) = table.unmap(&mut arena, 0x1000).unwrap();
    assert_eq!((paddr, size), (0x7000, PageSize::Size4K));
    assert_eq!(token.flush(), Some(0x1000));
    assert_eq!(table.query(&arena, 0x1000), Err(PagingError::NotMapped));
    assert!(matches!(table.unmap(&mut arena, 0x1000), Err(PagingError::NotMapped)));
    assert!(matches!(
        table.protect(&mut arena, 0x1000, rw()),
        Err(PagingError::NotMapped)
    ));
    assert!(matches!(
        table.remap(&mut arena, 0x4000_0000, 0, rw()),
        Err(PagingError::NotMapped)
    ));
    // the table of the second level is kept
    assert!(table.map(&mut arena, 0x1000, 0x9000, PageSize::Size4K, rw()).is_ok());
    assert_eq!(arena.allocated(), 5);
}

#[test]
fn regions() {
    let mut arena = FrameArena::new(64);
    let mut table = Table::try_new(&mut arena).unwrap();
    let (flushed, done) = table.map_region(
        &mut arena,
        0xf_f000,
        |v| v + 0x4000_0000,
        0x10_2000,
        rw(),
        true,
        true,
    );
    assert!(done.is_ok());
    assert_eq!(flushed, vec![0xf_f000, 0x10_0000, 0x20_0000]);
    assert_eq!(
        table.query(&arena, 0x12_3456),
        Ok((0x4012_3456, PageSize::Size1M, rw()))
    );
    assert_eq!(
        table.query(&arena, 0x20_0fff),
        Ok((0x4020_0fff, PageSize::Size4K, rw()))
    );
    let (flushed, done) =
        table.protect_region(&mut arena, 0xf_f000, 0x10_2000, MappingFlags::read(), false);
    assert_eq!(done.unwrap().flush_all(), None);
    assert_eq!(flushed, vec![]);
    assert_eq!(
        table.query(&arena, 0x12_3456),
        Ok((0x4012_3456, PageSize::Size1M, MappingFlags::read()))
    );
    // a hole ends the change of permissions
    let (_, done) = table.protect_region(&mut arena, 0xf_e000, 0x2000, rw(), false);
    assert!(matches!(done, Err(PagingError::NotMapped)));
    let (flushed, done) = table.unmap_region(&mut arena, 0xf_f000, 0x10_2000, true);
    assert!(done.is_ok());
    assert_eq!(flushed, vec![0xf_f000, 0x10_0000, 0x20_0000]);
    assert_eq!(table.query(&arena, 0x12_3456), Err(PagingError::NotMapped));
    let (_, done) = table.map_region(&mut arena, 0x123, |v| v, 0x1000, rw(), true, false);
    assert!(matches!(done, Err(PagingError::NotAligned)));
    let (_, done) = table.unmap_region(&mut arena, 0x10_0000, 0x1000, false);
    assert!(matches!(done, Err(PagingError::NotMapped)));
}

#[test]
fn copy_from_copies_descriptors() {
    let mut arena = FrameArena::new(64);
    let mut source = Table::try_new(&mut arena).unwrap();
    source.map(&mut arena, 0x4010_0000, 0x8000_0000, PageSize::Size1M, rw()).unwrap().ignore();
    source.map(&mut arena, 0x4030_0000, 0x9000_0000, PageSize::Size1M, rw()).unwrap().ignore();
    let mut copy = Table::try_new(&mut arena).unwrap();
    copy.map(&mut arena, 0x4020_0000, 0x7000_0000, PageSize::Size1M, rw()).unwrap().ignore();
    copy.copy_from(&mut arena, &source, 0x4010_0000, 0x20_0000);
    assert_eq!(
        copy.query(&arena, 0x4010_0000),
        Ok((0x8000_0000, PageSize::Size1M, rw()))
    );
    // the second megabyte of the range is empty in the source
    assert_eq!(copy.query(&arena, 0x4020_0000), Err(PagingError::NotMapped));
    // behind the range nothing was copied
    assert_eq!(copy.query(&arena, 0x4030_0000), Err(PagingError::NotMapped));
    copy.copy_from(&mut arena, &source, 0, 0);
    assert_eq!(copy.query(&arena, 0x4030_0000), Err(PagingError::NotMapped));
}

#[test]
fn root_from_what_the_handler_gave() {
    let mut arena = FrameArena::new(64);
    assert_eq!(root_from_frames(&mut arena, None), Err(PagingError::NoMemory));
    // four frames from 0x1000 on are not aligned to 16K: they go back
    let run = arena.alloc_frames(4, 0x1000);
    assert_eq!(run, Some(0x1000));
    assert_eq!(root_from_frames(&mut arena, run), Err(PagingError::NotAligned));
    assert_eq!(arena.allocated(), 0);
    // four frames from 0x8000 on are, and are filled with zero
    let run = arena.alloc_frames(4, 0x4000);
    assert_eq!(run, Some(0x8000));
    assert_eq!(arena.read(0x8000, 0), Some(0xa5a5_a5a5_a5a5_a5a5));
    assert_eq!(root_from_frames(&mut arena, run), Ok(0x8000));
    assert_eq!(arena.allocated(), 4);
    for k in 0..4 {
        for i in 0..512 {
            assert_eq!(arena.read(0x8000 + k * 0x1000, i), Some(0));
        }
    }
}

#[test]
fn borrowed_tables_are_not_freed() {
    let mut arena = FrameArena::new(64);
    let mut source = Table::try_new(&mut arena).unwrap();
    source.map(&mut arena, 0x4010_0000, 0x8000_0000, PageSize::Size4K, rw()).unwrap().ignore();
    // four frames of the first level and one table of the second
    assert_eq!(arena.allocated(), 5);
    let mut copy = Table::try_new(&mut arena).unwrap();
    copy.map(&mut arena, 0x4010_1000, 0x9000_0000, PageSize::Size4K, rw()).unwrap().ignore();
    copy.map(&mut arena, 0x4050_0000, 0x9000_0000, PageSize::Size4K, rw()).unwrap().ignore();
    assert_eq!(arena.allocated(), 11);
    // the table of the copy for the megabyte that is copied goes
    copy.copy_from(&mut arena, &source, 0x4010_0000, 0x10_0000);
    assert_eq!(arena.allocated(), 10);
    assert_eq!(
        copy.query(&arena, 0x4010_0000),
        Ok((0x8000_0000, PageSize::Size4K, rw()))
    );
    assert_eq!(copy.query(&arena, 0x4010_1000), Err(PagingError::NotMapped));
    // a second copy frees nothing: the slot is on loan
    copy.copy_from(&mut arena, &source, 0x4010_0000, 0x10_0000);
    assert_eq!(arena.allocated(), 10);
    // the copy gives back its four frames and its own table
    copy.destroy(&mut arena);
    assert_eq!(arena.allocated(), 5);
    assert_eq!(
        source.query(&arena, 0x4010_0000),
        Ok((0x8000_0000, PageSize::Size4K, rw()))
    );
    source.destroy(&mut arena);
    assert_eq!(arena.allocated(), 0);
}
