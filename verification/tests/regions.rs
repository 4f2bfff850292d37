use page_table_multiarch::arch::x86_64::X64PagingMetaData;
use page_table_multiarch::arena::FrameArena;
use page_table_multiarch::entry::x86_64::X64PTE;
use page_table_multiarch::region64::pick_page_size;
use page_table_multiarch::{MappingFlags, PageSize, PageTable64, PagingError};

type Table = PageTable64<X64PagingMetaData, X64PTE, FrameArena>;

fn rw() -> MappingFlags {
    MappingFlags::read() | MappingFlags::write()
}

#[test]
fn greedy_page_size() {
    assert_eq!(pick_page_size(true, 0, 0, 0x4000_0000), PageSize::Size1G);
    // too short for 1G
    assert_eq!(pick_page_size(true, 0, 0, 0x3fff_f000), PageSize::Size2M);
    // the physical address is not aligned to 1G
    assert_eq!(pick_page_size(true, 0, 0x20_0000, 0x4000_0000), PageSize::Size2M);
    // the virtual address is not aligned to 2M
    assert_eq!(pick_page_size(true, 0x1000, 0, 0x4000_0000), PageSize::Size4K);
    assert_eq!(pick_page_size(true, 0x20_0000, 0x40_0000, 0x1f_f000), PageSize::Size4K);
    assert_eq!(pick_page_size(false, 0, 0, 0x4000_0000), PageSize::Size4K);
}

#[test]
fn map_region_needs_alignment() {
    let mut arena = FrameArena::new(64);
    let mut cursor = Table::try_new(&mut arena).unwrap().cursor();
    assert_eq!(
        cursor.map_region(&mut arena, 0x1234, |v| v, 0x1000, rw(), true),
        Err(PagingError::NotAligned)
    );
    assert_eq!(
        cursor.map_region(&mut arena, 0x1000, |v| v, 0x1234, rw(), true),
        Err(PagingError::NotAligned)
    );
    assert_eq!(
        cursor.unmap_region(&mut arena, 0x1234, 0x1000),
        Err(PagingError::NotAligned)
    );
    assert_eq!(
        cursor.protect_region(&mut arena, 0x1000, 0x1234, rw()),
        Err(PagingError::NotAligned)
    );
    assert_eq!(arena.allocated(), 1);
    assert_eq!(cursor.flush(), vec![]);
}

#[test]
fn map_region_mixes_sizes() {
    let mut arena = FrameArena::new(64);
    let mut cursor = Table::try_new(&mut arena).unwrap().cursor();
    // 4K pages up to the next 2M boundary, a 2M page, then 4K pages again
    let start = 0x1f_e000;
    let size = 0x2000 + 0x20_0000 + 0x3000;
    cursor
        .map_region(&mut arena, start, |v| v + 0x4000_0000, size, rw(), true)
        .unwrap();
    assert_eq!(
        cursor.flush(),
        vec![
            Some(0x1f_e000),
            Some(0x1f_f000),
            Some(0x20_0000),
            Some(0x40_0000),
            Some(0x40_1000),
            Some(0x40_2000),
        ]
    );
    let table = cursor.inner();
    assert_eq!(
        table.query(&arena, 0x1f_f008),
        Ok((0x401f_f008, rw(), PageSize::Size4K))
    );
    assert_eq!(
        table.query(&arena, 0x21_2345),
        Ok((0x4021_2345, rw(), PageSize::Size2M))
    );
    assert_eq!(
        table.query(&arena, 0x40_2fff),
        Ok((0x4040_2fff, rw(), PageSize::Size4K))
    );
    assert_eq!(table.query(&arena, 0x40_3000), Err(PagingError::NotMapped));
    assert_eq!(table.query(&arena, 0x1f_d000), Err(PagingError::NotMapped));
}

#[test]
fn map_region_without_huge_pages() {
    let mut arena = FrameArena::new(64);
    let mut cursor = Table::try_new(&mut arena).unwrap().cursor();
    cursor
        .map_region(&mut arena, 0, |v| v, 0x20_0000, rw(), false)
        .unwrap();
    // 512 pages: more than the accumulator keeps
    assert_eq!(cursor.flush(), vec![None]);
    assert_eq!(
        cursor.inner().query(&arena, 0x1f_f000),
        Ok((0x1f_f000, rw(), PageSize::Size4K))
    );
}

#[test]
fn map_region_stops_at_the_first_failure() {
    let mut arena = FrameArena::new(64);
    let mut cursor = Table::try_new(&mut arena).unwrap().cursor();
    cursor.map(&mut arena, 0x2000, 0x9000, PageSize::Size4K, rw()).unwrap();
    assert_eq!(
        cursor.map_region(&mut arena, 0, |v| v, 0x4000, MappingFlags::read(), true),
        Err(PagingError::AlreadyMapped)
    );
    // the pages before the failure stay mapped
    assert_eq!(cursor.flush(), vec![Some(0x2000), Some(0), Some(0x1000)]);
    let table = cursor.inner();
    assert_eq!(
        table.query(&arena, 0x1000),
        Ok((0x1000, MappingFlags::read(), PageSize::Size4K))
    );
    assert_eq!(table.query(&arena, 0x2000), Ok((0x9000, rw(), PageSize::Size4K)));
    assert_eq!(table.query(&arena, 0x3000), Err(PagingError::NotMapped));
}

#[test]
fn unmap_region_clears_every_page() {
    let mut arena = FrameArena::new(64);
    let mut cursor = Table::try_new(&mut arena).unwrap().cursor();
    cursor
        .map_region(&mut arena, 0x1f_f000, |v| v, 0x20_2000, rw(), true)
        .unwrap();
    cursor.flush();
    assert_eq!(cursor.unmap_region(&mut arena, 0x1f_f000, 0x20_2000), Ok(()));
    assert_eq!(
        cursor.flush(),
        vec![Some(0x1f_f000), Some(0x20_0000), Some(0x40_0000)]
    );
    let table = cursor.inner();
    for vaddr in [0x1f_f000, 0x20_0000, 0x30_0000, 0x40_0000] {
        assert_eq!(table.query(&arena, vaddr), Err(PagingError::NotMapped));
    }
    // nothing is left to unmap
    assert_eq!(
        cursor.unmap_region(&mut arena, 0x1f_f000, 0x1000),
        Err(PagingError::NotMapped)
    );
}

#[test]
fn unmap_region_refuses_to_split_a_huge_page() {
    let mut arena = FrameArena::new(64);
    let mut cursor = Table::try_new(&mut arena).unwrap().cursor();
    cursor.map(&mut arena, 0x20_0000, 0x20_0000, PageSize::Size2M, rw()).unwrap();
    // the range is shorter than the page that lies there
    assert_eq!(
        cursor.unmap_region(&mut arena, 0x20_0000, 0x1000),
        Err(PagingError::NotAligned)
    );
    // the range starts in the middle of a page
    cursor.map(&mut arena, 0x40_0000, 0x40_0000, PageSize::Size2M, rw()).unwrap();
    assert_eq!(
        cursor.protect_region(&mut arena, 0x40_1000, 0x1000, MappingFlags::read()),
        Err(PagingError::NotAligned)
    );
}

#[test]
fn protect_region_skips_holes() {
    let mut arena = FrameArena::new(64);
    let mut cursor = Table::try_new(&mut arena).unwrap().cursor();
    cursor.map(&mut arena, 0x1000, 0x1000, PageSize::Size4K, rw()).unwrap();
    cursor.map(&mut arena, 0x3000, 0x3000, PageSize::Size4K, rw()).unwrap();
    cursor.flush();
    assert_eq!(
        cursor.protect_region(&mut arena, 0, 0x5000, MappingFlags::read()),
        Ok(())
    );
    // only the pages that were changed are flushed
    assert_eq!(cursor.flush(), vec![Some(0x1000), Some(0x3000)]);
    let table = cursor.inner();
    assert_eq!(
        table.query(&arena, 0x1000),
        Ok((0x1000, MappingFlags::read(), PageSize::Size4K))
    );
    assert_eq!(
        table.query(&arena, 0x3000),
        Ok((0x3000, MappingFlags::read(), PageSize::Size4K))
    );
    assert_eq!(table.query(&arena, 0x2000), Err(PagingError::NotMapped));
}

#[test]
fn protect_region_stops_at_a_broken_walk() {
    let mut arena = FrameArena::new(64);
    let mut cursor = Table::try_new(&mut arena).unwrap().cursor();
    cursor.map(&mut arena, 0, 0, PageSize::Size1G, rw()).unwrap();
    cursor.map(&mut arena, 0x4000_0000, 0, PageSize::Size4K, rw()).unwrap();
    cursor.flush();
    assert_eq!(
        cursor.protect_region(&mut arena, 0x3fff_f000, 0x2000, MappingFlags::read()),
        Err(PagingError::NotAligned)
    );
}

#[test]
fn empty_regions() {
    let mut arena = FrameArena::new(64);
    let mut cursor = Table::try_new(&mut arena).unwrap().cursor();
    assert_eq!(cursor.map_region(&mut arena, 0x1000, |v| v, 0, rw(), true), Ok(()));
    assert_eq!(cursor.unmap_region(&mut arena, 0x1000, 0), Ok(()));
    assert_eq!(cursor.protect_region(&mut arena, 0x1000, 0, rw()), Ok(()));
    assert_eq!(cursor.flush(), vec![]);
    assert_eq!(arena.allocated(), 1);
}

#[test]
fn region_steps_add_up() {
    let mut arena = FrameArena::new(64);
    let mut cursor = Table::try_new(&mut arena).unwrap().cursor();
    let start = 0x3fff_e000;
    let size = 0x2000 + 0x4000_0000 + 0x20_0000 + 0x1000;
    cursor
        .map_region(&mut arena, start, |v| v, size, rw(), true)
        .unwrap();
    let starts = cursor.flush();
    let mut next = start;
    let mut sum = 0;
    for request in starts {
        // each step starts where the one before ended
        assert_eq!(request, Some(next));
        let (_, _, page_size) = cursor.inner().query(&arena, next).unwrap();
        next += usize::from(page_size);
        sum += usize::from(page_size);
    }
    assert_eq!(sum, size);
    assert_eq!(next, start + size);
    // the same steps unmap the range
    cursor.unmap_region(&mut arena, start, size).unwrap();
    assert_eq!(
        cursor.flush(),
        vec![
            Some(0x3fff_e000),
            Some(0x3fff_f000),
            Some(0x4000_0000),
            Some(0x8000_0000),
            Some(0x8020_0000),
        ]
    );
}
