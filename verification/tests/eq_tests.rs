use page_table_multiarch::arch::riscv::Sv39MetaData;
use page_table_multiarch::arch::x86_64::X64PagingMetaData;
use page_table_multiarch::arena::FrameArena;
use page_table_multiarch::entry::x86_64::X64PTE;
use page_table_multiarch::{
    EqPageTable64Ext, GenericPTE, MappingFlags, PageSize, PagingError, PagingHandler,
};

type Table = EqPageTable64Ext<X64PagingMetaData, X64PTE, FrameArena, FrameArena>;
type Sv39Table = EqPageTable64Ext<Sv39MetaData<usize>, X64PTE, FrameArena, FrameArena>;

fn rw() -> MappingFlags {
    MappingFlags::read() | MappingFlags::write()
}

fn zeroed_root(arena: &mut FrameArena) -> usize {
    let root = arena.alloc_frame().unwrap();
    for i in 0..512 {
        assert!(arena.write(root, i, 0));
    }
    root
}

#[test]
fn from_paddr_checks_the_range() {
    assert!(Table::from_paddr(0x1000, None).is_ok());
    assert!(Table::from_paddr(0x1000, Some((0x80_0000_0000, 0x100_0000_0000))).is_ok());
    assert!(matches!(
        Table::from_paddr(0x1000, Some((0x1000, 0x100_0000_0000))),
        Err(PagingError::NotAligned)
    ));
    assert!(matches!(
        Table::from_paddr(0x1000, Some((0x80_0000_0000, 0x100_0000_1000))),
        Err(PagingError::NotAligned)
    ));
    assert_eq!(Table::from_paddr(0x1000, None).unwrap().root_paddr(), 0x1000);
}

#[test]
fn map_query_unmap() {
    let mut arena = FrameArena::new(64);
    let root = zeroed_root(&mut arena);
    let mut table = Table::from_paddr(root, None).unwrap();
    let token = table.map(&mut arena, 0x4000, 0x8000, PageSize::Size4K, rw()).unwrap();
    assert_eq!(token.flush(), Some(0x4000));
    assert_eq!(arena.allocated(), 4);
    assert_eq!(table.query(&arena, 0x4008), Ok((0x8008, rw(), PageSize::Size4K)));
    let (size, _) = table.protect(&mut arena, 0x4000, MappingFlags::read()).unwrap();
    assert_eq!(size, PageSize::Size4K);
    let (size, _) = table.remap(&mut arena, 0x4000, 0x9000, rw()).unwrap();
    assert_eq!(size, PageSize::Size4K);
    assert_eq!(table.query(&arena, 0x4008), Ok((0x9008, rw(), PageSize::Size4K)));
    let (paddr, size, token) = table.unmap(&mut arena, 0x4000).unwrap();
    assert_eq!((paddr, size), (0x9000, PageSize::Size4K));
    assert_eq!(token.flush(), Some(0x4000));
    assert_eq!(table.query(&arena, 0x4008), Err(PagingError::NotMapped));
    assert!(matches!(table.unmap(&mut arena, 0x4000), Err(PagingError::NotMapped)));
    table.destroy(&mut arena);
    assert_eq!(arena.allocated(), 0);
}

#[test]
fn shared_range_is_filled_before_the_first_shared_page() {
    let mut arena = FrameArena::new(64);
    let root = zeroed_root(&mut arena);
    let range = (0x80_0000_0000, 0x180_0000_0000);
    let mut table = Table::from_paddr(root, Some(range)).unwrap();
    // an address that is not shared makes no tables for the range
    table.map(&mut arena, 0x4000_0000, 0, PageSize::Size1G, rw()).unwrap().ignore();
    assert_eq!(arena.allocated(), 2);
    assert_eq!(arena.read(root, 1), Some(0));
    // the first shared page fills both slots of the range
    table.map(&mut arena, 0x80_0000_0000, 0, PageSize::Size1G, rw()).unwrap().ignore();
    assert_eq!(arena.allocated(), 4);
    let one = X64PTE::from_raw(arena.read(root, 1).unwrap());
    let two = X64PTE::from_raw(arena.read(root, 2).unwrap());
    assert!(one.is_present() && two.is_present());
    assert_ne!(one.paddr(), two.paddr());
    assert_eq!(arena.read(root, 3), Some(0));
    // the low memory region is shared too, and the tables are made once
    table.map(&mut arena, 0x10_0000, 0, PageSize::Size4K, rw()).unwrap().ignore();
    assert_eq!(arena.allocated(), 6);
}

#[test]
fn shared_range_needs_four_levels() {
    let mut arena = FrameArena::new(64);
    let root = zeroed_root(&mut arena);
    let mut table = Sv39Table::from_paddr(root, Some((0, 0x80_0000_0000))).unwrap();
    assert!(matches!(
        table.map(&mut arena, 0x1000, 0, PageSize::Size4K, rw()),
        Err(PagingError::NotAligned)
    ));
    assert_eq!(arena.allocated(), 1);
}

#[test]
fn regions_flush_by_page() {
    let mut arena = FrameArena::new(64);
    let root = zeroed_root(&mut arena);
    let mut table = Table::from_paddr(root, None).unwrap();
    let (flushed, done) = table.map_region(&mut arena, 0x1000, |v| v, 0x2000, rw(), true, true);
    assert!(done.is_ok());
    // each page is flushed twice
    assert_eq!(flushed, vec![0x1000, 0x1000, 0x2000, 0x2000]);
    let (flushed, done) = table.map_region(&mut arena, 0x5000, |v| v, 0x1000, rw(), true, false);
    assert_eq!(done.unwrap().flush_all(), None);
    assert_eq!(flushed, vec![]);
    let (flushed, done) =
        table.protect_region(&mut arena, 0x1000, 0x5000, MappingFlags::read(), true);
    assert!(done.is_ok());
    assert_eq!(flushed, vec![0x1000, 0x2000, 0x5000]);
    assert_eq!(
        table.query(&arena, 0x5000),
        Ok((0x5000, MappingFlags::read(), PageSize::Size4K))
    );
    let (flushed, done) = table.unmap_region(&mut arena, 0x1000, 0x2000, true);
    assert!(done.is_ok());
    assert_eq!(flushed, vec![0x1000, 0x2000]);
    let (_, done) = table.unmap_region(&mut arena, 0x1000, 0x1000, true);
    assert!(matches!(done, Err(PagingError::NotMapped)));
    let (_, done) = table.map_region(&mut arena, 0x1001, |v| v, 0x1000, rw(), true, true);
    assert!(matches!(done, Err(PagingError::NotAligned)));
}

#[test]
fn strict_walk_and_copy() {
    let mut arena = FrameArena::new(64);
    let root = zeroed_root(&mut arena);
    let mut table = Table::from_paddr(root, None).unwrap();
    table.map(&mut arena, 0x4000, 0x8000, PageSize::Size4K, rw()).unwrap().ignore();
    let (visits, done) = table.walk(&arena, usize::MAX, true, true);
    assert_eq!(done, Ok(()));
    assert_eq!(visits.len(), 8);
    assert_eq!(visits[3].level, 3);
    assert_eq!(visits[3].vaddr, 0x4000);

    let other_root = zeroed_root(&mut arena);
    let mut other = Table::from_paddr(other_root, None).unwrap();
    other.copy_from(&mut arena, &table, 0, 0x1000);
    assert_eq!(other.query(&arena, 0x4000), Ok((0x8000, rw(), PageSize::Size4K)));
    other.copy_from(&mut arena, &table, 0, 0);

    // a present descriptor that points nowhere ends a strict walk
    let broken = X64PTE::new_page(0, MappingFlags::read(), false).raw();
    assert!(arena.write(root, 5, broken));
    let (visits, done) = table.walk(&arena, usize::MAX, true, true);
    assert_eq!(done, Err(PagingError::NotMapped));
    assert_eq!(visits.len(), 9);
    assert_eq!(visits[8].index, 5);
    assert!(!visits[8].after);
}

#[test]
fn borrowed_slots_are_not_freed() {
    let mut arena = FrameArena::new(64);
    let root = zeroed_root(&mut arena);
    let mut source = Table::from_paddr(root, None).unwrap();
    source.map(&mut arena, 0x4000, 0x8000, PageSize::Size4K, rw()).unwrap().ignore();
    // the root and three tables
    assert_eq!(arena.allocated(), 4);

    let copy_root = zeroed_root(&mut arena);
    let mut copy = Table::from_paddr(copy_root, None).unwrap();
    copy.copy_from(&mut arena, &source, 0, 0x1000);
    copy.map(&mut arena, 0x80_0000_4000, 0x9000, PageSize::Size4K, rw()).unwrap().ignore();
    assert_eq!(arena.allocated(), 8);

    // the copy gives back its root and its own three tables, and leaves
    // what it has on loan
    copy.destroy(&mut arena);
    assert_eq!(arena.allocated(), 4);
    assert!(!arena.is_allocated(copy_root));
    assert_eq!(source.query(&arena, 0x4000), Ok((0x8000, rw(), PageSize::Size4K)));
    source.destroy(&mut arena);
    assert_eq!(arena.allocated(), 0);
}

#[test]
fn copy_from_frees_what_it_displaces() {
    let mut arena = FrameArena::new(64);
    let root = zeroed_root(&mut arena);
    let mut source = Table::from_paddr(root, None).unwrap();
    source.map(&mut arena, 0x4000, 0x8000, PageSize::Size4K, rw()).unwrap().ignore();
    let copy_root = zeroed_root(&mut arena);
    let mut copy = Table::from_paddr(copy_root, None).unwrap();
    copy.map(&mut arena, 0x5000, 0x9000, PageSize::Size4K, rw()).unwrap().ignore();
    assert_eq!(arena.allocated(), 8);
    // the three tables of the copy below the first slot go
    copy.copy_from(&mut arena, &source, 0, 0x1000);
    assert_eq!(arena.allocated(), 5);
    assert_eq!(copy.query(&arena, 0x4000), Ok((0x8000, rw(), PageSize::Size4K)));
    assert_eq!(copy.query(&arena, 0x5000), Err(PagingError::NotMapped));
    // a second copy frees nothing: the slot is on loan
    copy.copy_from(&mut arena, &source, 0, 0x1000);
    assert_eq!(arena.allocated(), 5);
    copy.destroy(&mut arena);
    assert_eq!(arena.allocated(), 4);
    source.destroy(&mut arena);
    assert_eq!(arena.allocated(), 0);
}
