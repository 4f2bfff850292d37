use std::collections::HashMap;

use page_table_multiarch::arch::riscv::Sv39MetaData;
use page_table_multiarch::arch::x86_64::X64PagingMetaData;
use page_table_multiarch::arena::FrameArena;
use page_table_multiarch::entry::x86_64::X64PTE;
use page_table_multiarch::{
    GenericPTE, MappingFlags, PageSize, PageTable64, PagingError, PagingHandler,
};
use rand::{rngs::SmallRng, Rng, SeedableRng};

type Table = PageTable64<X64PagingMetaData, X64PTE, FrameArena>;
type Sv39Table = PageTable64<Sv39MetaData<usize>, X64PTE, FrameArena>;

fn rw() -> MappingFlags {
    MappingFlags::read() | MappingFlags::write()
}

#[test]
fn single_page_identity_map() {
    let mut arena = FrameArena::new(64);
    let table = Table::try_new(&mut arena).unwrap();
    assert_eq!(arena.allocated(), 1);
    let mut cursor = table.cursor();
    cursor.map(&mut arena, 0x4000, 0x4000, PageSize::Size4K, rw()).unwrap();
    // one root frame plus three intermediate-level frames
    assert_eq!(arena.allocated(), 4);
    let (table, requests) = cursor.finish();
    assert_eq!(requests, vec![Some(0x4000)]);
    assert_eq!(table.query(&arena, 0x4000), Ok((0x4000, rw(), PageSize::Size4K)));
    assert_eq!(table.query(&arena, 0x4321), Ok((0x4321, rw(), PageSize::Size4K)));
    assert_eq!(table.query(&arena, 0x5000), Err(PagingError::NotMapped));
    table.destroy(&mut arena);
    assert_eq!(arena.allocated(), 0);
}

#[test]
fn fresh_tables_are_zeroed() {
    // The arena hands out frames full of junk; the tree has to clear them.
    let mut arena = FrameArena::new(64);
    let table = Table::try_new(&mut arena).unwrap();
    let root = table.root_paddr();
    for i in 0..512 {
        assert_eq!(arena.read(root, i), Some(0));
    }
    let mut cursor = table.cursor();
    cursor.map(&mut arena, 0x4000, 0x4000, PageSize::Size4K, rw()).unwrap();
    let (table, _) = cursor.finish();
    let p3 = X64PTE::from_raw(arena.read(root, 0).unwrap()).paddr();
    for i in 1..512 {
        assert_eq!(arena.read(p3, i), Some(0));
    }
    assert_eq!(table.query(&arena, 0x20_0000), Err(PagingError::NotMapped));
}

#[test]
fn huge_page_coalescing() {
    let mut arena = FrameArena::new(64);
    let table = Table::try_new(&mut arena).unwrap();
    let mut cursor = table.cursor();
    cursor
        .map_region(&mut arena, 0, |v| v, 0x20_0000, MappingFlags::read(), true)
        .unwrap();
    // root, one table of 1G blocks, one table of 2M blocks: no table of 4K pages
    assert_eq!(arena.allocated(), 3);
    let (table, requests) = cursor.finish();
    // exactly one leaf was written
    assert_eq!(requests, vec![Some(0)]);
    assert_eq!(
        table.query(&arena, 0x1000),
        Ok((0x1000, MappingFlags::read(), PageSize::Size2M))
    );
    let leaves: Vec<_> = table
        .walk(&arena, usize::MAX, true, false)
        .into_iter()
        .filter(|v| v.level == 2)
        .collect();
    assert_eq!(leaves.len(), 1);
    assert!(leaves[0].entry.is_huge());
    assert_eq!(leaves[0].vaddr, 0);
}

#[test]
fn ladder_descent() {
    let mut arena = FrameArena::new(64);
    let table = Table::try_new(&mut arena).unwrap();
    let mut cursor = table.cursor();
    cursor
        .map_region(&mut arena, 0, |v| v, 0x4000, MappingFlags::read(), true)
        .unwrap();
    assert_eq!(arena.allocated(), 4);
    let (table, requests) = cursor.finish();
    assert_eq!(
        requests,
        vec![Some(0), Some(0x1000), Some(0x2000), Some(0x3000)]
    );
    let visits = table.walk(&arena, usize::MAX, true, false);
    // four 4K leaves in the level-3 table, and no huge leaf above
    assert_eq!(visits.iter().filter(|v| v.level == 3).count(), 4);
    assert!(visits.iter().all(|v| !v.entry.is_huge()));
    for page in 0..4 {
        assert_eq!(
            table.query(&arena, page * 0x1000 + 8),
            Ok((page * 0x1000 + 8, MappingFlags::read(), PageSize::Size4K))
        );
    }
    assert_eq!(table.query(&arena, 0x4000), Err(PagingError::NotMapped));
}

#[test]
fn protection_change() {
    let mut arena = FrameArena::new(64);
    let table = Table::try_new(&mut arena).unwrap();
    let mut cursor = table.cursor();
    cursor.map(&mut arena, 0x4000, 0x4000, PageSize::Size4K, rw()).unwrap();
    assert_eq!(cursor.flush(), vec![Some(0x4000)]);
    assert_eq!(
        cursor.protect(&mut arena, 0x4000, MappingFlags::read()),
        Ok(PageSize::Size4K)
    );
    assert_eq!(
        cursor.inner().query(&arena, 0x4000),
        Ok((0x4000, MappingFlags::read(), PageSize::Size4K))
    );
    // the flush accumulator lists exactly {0x4000}
    assert_eq!(cursor.flush(), vec![Some(0x4000)]);
    // commit is idempotent
    assert_eq!(cursor.flush(), vec![]);
}

#[test]
fn already_mapped_rejection() {
    let mut arena = FrameArena::new(64);
    let table = Table::try_new(&mut arena).unwrap();
    let mut cursor = table.cursor();
    cursor.map(&mut arena, 0x4000, 0x4000, PageSize::Size4K, rw()).unwrap();
    assert_eq!(
        cursor.map(&mut arena, 0x4000, 0x8000, PageSize::Size4K, MappingFlags::read()),
        Err(PagingError::AlreadyMapped)
    );
    let (table, requests) = cursor.finish();
    assert_eq!(requests, vec![Some(0x4000)]);
    assert_eq!(table.query(&arena, 0x4000), Ok((0x4000, rw(), PageSize::Size4K)));
}

#[test]
fn randomised_soak() {
    let mut arena = FrameArena::new(0x10000);
    let table = Table::try_new(&mut arena).unwrap();
    let mut cursor = table.cursor();
    let mask = ((1u64 << 48) - 1) & !0xfff;
    let mut pages: HashMap<usize, usize> = HashMap::new();
    let mut rng = SmallRng::seed_from_u64(0x5eed);
    for _ in 0..2048 {
        if rng.random_ratio(3, 4) || pages.is_empty() {
            let vaddr = loop {
                let vaddr = (rng.random::<u64>() & mask) as usize;
                if !pages.contains_key(&vaddr) {
                    break vaddr;
                }
            };
            let paddr = (rng.random::<u64>() & mask) as usize;
            cursor.map(&mut arena, vaddr, paddr, PageSize::Size4K, rw()).unwrap();
            pages.insert(vaddr, paddr);
        } else {
            let vaddr = *pages.keys().next().unwrap();
            let paddr = pages.remove(&vaddr).unwrap();
            assert_eq!(
                cursor.unmap(&mut arena, vaddr),
                Ok((paddr, rw(), PageSize::Size4K))
            );
        }
    }
    let (table, _) = cursor.finish();
    for (vaddr, paddr) in pages.iter() {
        assert_eq!(table.query(&arena, *vaddr), Ok((*paddr, rw(), PageSize::Size4K)));
    }
    table.destroy(&mut arena);
    assert_eq!(arena.allocated(), 0);
}

#[test]
fn map_then_query_each_size() {
    let mut arena = FrameArena::new(64);
    let table = Table::try_new(&mut arena).unwrap();
    let mut cursor = table.cursor();
    // the target is aligned down to the page size
    cursor
        .map(&mut arena, 0x4000_0000, 0x8765_4321, PageSize::Size1G, rw())
        .unwrap();
    cursor
        .map(&mut arena, 0x8020_0000, 0x1234_5678, PageSize::Size2M, rw())
        .unwrap();
    cursor
        .map(&mut arena, 0x8000_3000, 0x1234_5678, PageSize::Size4K, rw())
        .unwrap();
    let (table, _) = cursor.finish();
    assert_eq!(
        table.query(&arena, 0x4000_0000 + 0x12_3456),
        Ok((0x8000_0000 + 0x12_3456, rw(), PageSize::Size1G))
    );
    assert_eq!(
        table.query(&arena, 0x8020_0000 + 0x1_2345),
        Ok((0x1220_0000 + 0x1_2345, rw(), PageSize::Size2M))
    );
    assert_eq!(
        table.query(&arena, 0x8000_3000 + 0x123),
        Ok((0x1234_5000 + 0x123, rw(), PageSize::Size4K))
    );
}

#[test]
fn unmap_then_query_then_map_again() {
    let mut arena = FrameArena::new(64);
    let table = Table::try_new(&mut arena).unwrap();
    let mut cursor = table.cursor();
    cursor.map(&mut arena, 0x7000, 0x9000, PageSize::Size4K, rw()).unwrap();
    assert_eq!(
        cursor.unmap(&mut arena, 0x7000),
        Ok((0x9000, rw(), PageSize::Size4K))
    );
    assert_eq!(cursor.inner().query(&arena, 0x7000), Err(PagingError::NotMapped));
    assert_eq!(cursor.unmap(&mut arena, 0x7000), Err(PagingError::NotMapped));
    let frames = arena.allocated();
    assert_eq!(cursor.map(&mut arena, 0x7000, 0xa000, PageSize::Size4K, rw()), Ok(()));
    // the tables were kept, so the second mapping needs no frame
    assert_eq!(arena.allocated(), frames);
    assert_eq!(
        cursor.inner().query(&arena, 0x7000),
        Ok((0xa000, rw(), PageSize::Size4K))
    );
}

#[test]
fn no_memory_leaves_tables_linked() {
    // root + two tables, then memory runs out
    let mut arena = FrameArena::new(3);
    let table = Table::try_new(&mut arena).unwrap();
    let mut cursor = table.cursor();
    assert_eq!(
        cursor.map(&mut arena, 0x4000, 0x4000, PageSize::Size4K, rw()),
        Err(PagingError::NoMemory)
    );
    assert_eq!(arena.allocated(), 3);
    assert_eq!(cursor.flush(), vec![]);
    // a 2M page fits in the tables that were made
    assert_eq!(cursor.map(&mut arena, 0, 0, PageSize::Size2M, rw()), Ok(()));
    let (table, _) = cursor.finish();
    assert_eq!(table.query(&arena, 0x4000), Ok((0x4000, rw(), PageSize::Size2M)));
    table.destroy(&mut arena);
    assert_eq!(arena.allocated(), 0);
}

#[test]
fn try_new_without_memory() {
    let mut arena = FrameArena::new(0);
    assert!(matches!(Table::try_new(&mut arena), Err(PagingError::NoMemory)));
    assert_eq!(arena.allocated(), 0);
}

#[test]
fn mapped_to_huge_page() {
    let mut arena = FrameArena::new(64);
    let table = Table::try_new(&mut arena).unwrap();
    let mut cursor = table.cursor();
    cursor.map(&mut arena, 0, 0x4000_0000, PageSize::Size1G, rw()).unwrap();
    // a finer mapping below the block would be hidden by it
    assert_eq!(
        cursor.map(&mut arena, 0x1000, 0x1000, PageSize::Size4K, rw()),
        Err(PagingError::AlreadyMapped)
    );
    assert_eq!(
        cursor.map(&mut arena, 0x20_0000, 0x20_0000, PageSize::Size2M, rw()),
        Err(PagingError::AlreadyMapped)
    );
    assert_eq!(
        cursor.map(&mut arena, 0, 0, PageSize::Size1G, rw()),
        Err(PagingError::AlreadyMapped)
    );
}

#[test]
fn finer_page_below_a_block_is_refused() {
    let mut arena = FrameArena::new(64);
    let table = Table::try_new(&mut arena).unwrap();
    let mut cursor = table.cursor();
    cursor
        .map(&mut arena, 0x20_0000, 0x20_0000, PageSize::Size2M, MappingFlags::read())
        .unwrap();
    let frames = arena.allocated();
    assert_eq!(
        cursor.map(&mut arena, 0x20_1000, 0x5000, PageSize::Size4K, MappingFlags::read()),
        Err(PagingError::AlreadyMapped)
    );
    assert_eq!(arena.allocated(), frames);
    // the block is untouched
    assert_eq!(
        cursor.inner().query(&arena, 0x20_1000),
        Ok((0x20_1000, MappingFlags::read(), PageSize::Size2M))
    );
    // a block for the frame at address zero is in the way as any other
    cursor
        .map(&mut arena, 0, 0, PageSize::Size2M, MappingFlags::read())
        .unwrap();
    assert_eq!(
        cursor.map(&mut arena, 0x1000, 0x5000, PageSize::Size4K, MappingFlags::read()),
        Err(PagingError::AlreadyMapped)
    );
    assert_eq!(
        cursor.inner().query(&arena, 0x1000),
        Ok((0x1000, MappingFlags::read(), PageSize::Size2M))
    );
}

#[test]
fn remap_keeps_the_page_size() {
    let mut arena = FrameArena::new(64);
    let table = Table::try_new(&mut arena).unwrap();
    let mut cursor = table.cursor();
    cursor.map(&mut arena, 0x20_0000, 0x40_0000, PageSize::Size2M, rw()).unwrap();
    assert_eq!(
        cursor.remap(&mut arena, 0x20_0000, 0x80_0000, MappingFlags::read()),
        Ok(PageSize::Size2M)
    );
    assert_eq!(
        cursor.inner().query(&arena, 0x20_1000),
        Ok((0x80_1000, MappingFlags::read(), PageSize::Size2M))
    );
    assert_eq!(
        cursor.remap(&mut arena, 0x4000_0000, 0, MappingFlags::read()),
        Err(PagingError::NotMapped)
    );
    assert_eq!(
        cursor.protect(&mut arena, 0x4000_0000, MappingFlags::read()),
        Err(PagingError::NotMapped)
    );
}

#[test]
fn three_levels() {
    let mut arena = FrameArena::new(64);
    let table = Sv39Table::try_new(&mut arena).unwrap();
    let mut cursor = table.cursor();
    cursor.map(&mut arena, 0x4000, 0x4000, PageSize::Size4K, rw()).unwrap();
    // the root is the table of 1G blocks: two more tables
    assert_eq!(arena.allocated(), 3);
    cursor.map(&mut arena, 0x4000_0000, 0, PageSize::Size1G, rw()).unwrap();
    assert_eq!(arena.allocated(), 3);
    let (table, _) = cursor.finish();
    assert_eq!(table.query(&arena, 0x4008), Ok((0x4008, rw(), PageSize::Size4K)));
    assert_eq!(table.query(&arena, 0x4000_0008), Ok((8, rw(), PageSize::Size1G)));
    table.destroy(&mut arena);
    assert_eq!(arena.allocated(), 0);
}

#[test]
fn walk_reports_before_and_after() {
    let mut arena = FrameArena::new(64);
    let table = Table::try_new(&mut arena).unwrap();
    let mut cursor = table.cursor();
    cursor.map(&mut arena, 0x8000_4000, 0x4000, PageSize::Size4K, rw()).unwrap();
    let (table, _) = cursor.finish();
    let visits = table.walk(&arena, usize::MAX, true, true);
    let seen: Vec<(bool, usize, usize, usize)> = visits
        .iter()
        .map(|v| (v.after, v.level, v.index, v.vaddr))
        .collect();
    assert_eq!(
        seen,
        vec![
            (false, 0, 0, 0),
            (false, 1, 2, 0x8000_0000),
            (false, 2, 0, 0x8000_0000),
            (false, 3, 4, 0x8000_4000),
            (true, 3, 4, 0x8000_4000),
            (true, 2, 0, 0x8000_0000),
            (true, 1, 2, 0x8000_0000),
            (true, 0, 0, 0),
        ]
    );
    assert_eq!(visits[3].entry.paddr(), 0x4000);
}

#[test]
fn walk_limit_counts_per_table() {
    let mut arena = FrameArena::new(64);
    let table = Table::try_new(&mut arena).unwrap();
    let mut cursor = table.cursor();
    cursor
        .map_region(&mut arena, 0, |v| v, 0x4000, rw(), false)
        .unwrap();
    let (table, _) = cursor.finish();
    let all = table.walk(&arena, usize::MAX, true, false);
    assert_eq!(all.iter().filter(|v| v.level == 3).count(), 4);
    let two = table.walk(&arena, 2, true, false);
    assert_eq!(two.iter().filter(|v| v.level == 3).count(), 2);
    assert_eq!(two.len(), 5);
    let one = table.walk(&arena, 1, true, true);
    assert_eq!(one.len(), 8);
    // with a limit of zero nothing is reported
    let zero = table.walk(&arena, 0, true, true);
    assert!(zero.is_empty());
}

#[test]
fn copy_from_borrows_the_slots() {
    let mut arena = FrameArena::new(64);
    let source = Table::try_new(&mut arena).unwrap();
    let mut cursor = source.cursor();
    cursor.map(&mut arena, 0x4000, 0x4000, PageSize::Size4K, rw()).unwrap();
    let (source, _) = cursor.finish();
    assert_eq!(arena.allocated(), 4);

    let copy = Table::try_new(&mut arena).unwrap();
    let mut cursor = copy.cursor();
    // a mapping of its own in the slot that will be replaced
    cursor.map(&mut arena, 0x9000, 0x9000, PageSize::Size4K, rw()).unwrap();
    assert_eq!(arena.allocated(), 8);
    cursor.copy_from(&mut arena, &source, 0, 0x1000);
    // the displaced tables were freed
    assert_eq!(arena.allocated(), 5);
    let (copy, requests) = cursor.finish();
    assert_eq!(requests, vec![None]);
    assert_eq!(copy.query(&arena, 0x4000), Ok((0x4000, rw(), PageSize::Size4K)));
    assert_eq!(copy.query(&arena, 0x9000), Err(PagingError::NotMapped));
    // destroying the copy leaves what it borrowed
    copy.destroy(&mut arena);
    assert_eq!(arena.allocated(), 4);
    assert_eq!(source.query(&arena, 0x4000), Ok((0x4000, rw(), PageSize::Size4K)));
    source.destroy(&mut arena);
    assert_eq!(arena.allocated(), 0);
}
