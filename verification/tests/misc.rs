use page_table_multiarch::arch::aarch64::A64PagingMetaData;
use page_table_multiarch::arch::arm::A32PagingMetaData;
use page_table_multiarch::arch::loongarch64::{LA64MetaData, PWCH_VALUE, PWCL_VALUE};
use page_table_multiarch::arch::riscv::{Sv39MetaData, Sv48MetaData, SvVirtAddr};
use page_table_multiarch::arch::x86_64::X64PagingMetaData;
use page_table_multiarch::arena::FrameArena;
use page_table_multiarch::flush::TlbFlusher;
use page_table_multiarch::walk32;
use page_table_multiarch::walk64::{p1_index, p2_index, p3_index, p4_index};
use page_table_multiarch::{
    low_mask, sign_extended, ErrorKind, PageSize, PagingError, PagingHandler, PagingMetaData,
    TlbFlush, TlbFlushAll,
};

#[test]
fn page_sizes() {
    assert_eq!(usize::from(PageSize::Size4K), 0x1000);
    assert_eq!(usize::from(PageSize::Size1M), 0x10_0000);
    assert_eq!(usize::from(PageSize::Size2M), 0x20_0000);
    assert_eq!(usize::from(PageSize::Size1G), 0x4000_0000);
    assert!(!PageSize::Size4K.is_huge());
    assert!(PageSize::Size1M.is_huge());
    assert!(PageSize::Size2M.is_huge());
    assert!(PageSize::Size1G.is_huge());
}

#[test]
fn alignment_comes_from_memory_addr() {
    assert!(PageSize::Size4K.is_aligned(0x1234_5000));
    assert!(!PageSize::Size4K.is_aligned(0x1234_5678));
    assert!(PageSize::Size2M.is_aligned(0x4020_0000));
    assert!(!PageSize::Size2M.is_aligned(0x4010_0000));
    assert_eq!(PageSize::Size4K.align_offset(0x1234_5678), 0x678);
    assert_eq!(PageSize::Size1G.align_offset(0x1234_5678), 0x1234_5678);
    assert_eq!(PageSize::Size4K.align_down(0x1234_5678), 0x1234_5000);
    assert_eq!(PageSize::Size1M.align_down(0x1234_5678), 0x1230_0000);
    assert_eq!(PageSize::Size2M.align_down(0x1234_5678), 0x1220_0000);
    assert_eq!(PageSize::Size1G.align_down(0x5234_5678), 0x4000_0000);
}

#[test]
fn indices_of_four_levels() {
    let vaddr = (3 << 39) | (5 << 30) | (7 << 21) | (9 << 12) | 0x123;
    assert_eq!(p4_index(vaddr), 3);
    assert_eq!(p3_index(vaddr), 5);
    assert_eq!(p2_index(vaddr), 7);
    assert_eq!(p1_index(vaddr), 9);
    assert_eq!(p4_index(usize::MAX), 511);
    assert_eq!(p1_index(usize::MAX), 511);
}

#[test]
fn indices_of_two_levels() {
    assert_eq!(walk32::p1_index(0x1234_5678), 0x123);
    assert_eq!(walk32::p2_index(0x1234_5678), 0x45);
    assert_eq!(walk32::p1_index(0xffff_ffff), 0xfff);
    assert_eq!(walk32::p2_index(0xffff_ffff), 0xff);
}

#[test]
fn metadata_constants() {
    assert_eq!(X64PagingMetaData::levels(), 4);
    assert_eq!(X64PagingMetaData::pa_max_bits(), 52);
    assert_eq!(X64PagingMetaData::va_max_bits(), 48);
    assert_eq!(A64PagingMetaData::levels(), 4);
    assert_eq!(A64PagingMetaData::pa_max_bits(), 48);
    assert_eq!(A64PagingMetaData::va_max_bits(), 48);
    assert_eq!(A32PagingMetaData::levels(), 2);
    assert_eq!(A32PagingMetaData::pa_max_bits(), 32);
    assert_eq!(A32PagingMetaData::va_max_bits(), 32);
    assert_eq!(LA64MetaData::levels(), 4);
    assert_eq!(LA64MetaData::pa_max_bits(), 48);
    assert_eq!(LA64MetaData::va_max_bits(), 48);
    assert_eq!(Sv39MetaData::<usize>::levels(), 3);
    assert_eq!(Sv39MetaData::<usize>::pa_max_bits(), 56);
    assert_eq!(Sv39MetaData::<usize>::va_max_bits(), 39);
    assert_eq!(Sv48MetaData::<usize>::levels(), 4);
    assert_eq!(Sv48MetaData::<usize>::pa_max_bits(), 56);
    assert_eq!(Sv48MetaData::<usize>::va_max_bits(), 48);
    assert_eq!(PWCL_VALUE, 0x13e4_d52c);
    assert_eq!(PWCH_VALUE, 0x267);
    assert_eq!(<usize as SvVirtAddr>::from_usize(5).to_usize(), 5);
}

#[test]
fn valid_addresses() {
    assert_eq!(low_mask(52), 0x000f_ffff_ffff_ffff);
    assert_eq!(low_mask(64), u64::MAX);
    assert!(X64PagingMetaData::paddr_is_valid(0x000f_ffff_ffff_ffff));
    assert!(!X64PagingMetaData::paddr_is_valid(0x0010_0000_0000_0000));
    assert!(A32PagingMetaData::paddr_is_valid(0xffff_ffff));
    assert!(!A32PagingMetaData::paddr_is_valid(0x1_0000_0000));
    // the top bits are sign extended
    assert!(X64PagingMetaData::vaddr_is_valid(0x0000_7fff_ffff_ffff));
    assert!(X64PagingMetaData::vaddr_is_valid(0xffff_8000_0000_0000));
    assert!(!X64PagingMetaData::vaddr_is_valid(0x0000_8000_0000_0000));
    assert!(!X64PagingMetaData::vaddr_is_valid(0xfff0_8000_0000_0000));
    assert!(Sv39MetaData::<usize>::vaddr_is_valid(0x3f_ffff_ffff));
    assert!(!Sv39MetaData::<usize>::vaddr_is_valid(0x40_0000_0000));
    assert!(Sv39MetaData::<usize>::vaddr_is_valid(0xffff_ffc0_0000_0000));
    assert!(sign_extended(48, 0));
    // AArch64: bits 48.. are all zero or all one
    assert!(A64PagingMetaData::vaddr_is_valid(0x0000_ffff_ffff_ffff));
    assert!(A64PagingMetaData::vaddr_is_valid(0xffff_0000_0000_0000));
    assert!(!A64PagingMetaData::vaddr_is_valid(0x0001_0000_0000_0000));
    assert!(A32PagingMetaData::vaddr_is_valid(0xffff_ffff));
    assert!(!A32PagingMetaData::vaddr_is_valid(0x1_0000_0000));
}

#[test]
fn error_kinds() {
    assert_eq!(PagingError::NoMemory.kind(), ErrorKind::NoMemory);
    assert_eq!(PagingError::NotAligned.kind(), ErrorKind::InvalidInput);
    assert_eq!(PagingError::NotMapped.kind(), ErrorKind::InvalidInput);
    assert_eq!(PagingError::AlreadyMapped.kind(), ErrorKind::InvalidInput);
    assert_eq!(PagingError::MappedToHugePage.kind(), ErrorKind::InvalidInput);
}

#[test]
fn flush_tokens() {
    let token: TlbFlush<X64PagingMetaData> = TlbFlush::new(0x4000);
    assert_eq!(token.flush(), Some(0x4000));
    let token: TlbFlush<X64PagingMetaData> = TlbFlush::new(0x4000);
    token.ignore();
    let all: TlbFlushAll<X64PagingMetaData> = TlbFlushAll::new();
    assert_eq!(all.flush_all(), None);
    let all: TlbFlushAll<X64PagingMetaData> = TlbFlushAll::new();
    all.ignore();
}

#[test]
fn flush_accumulator_lists_then_overflows() {
    let mut flusher = TlbFlusher::new();
    assert_eq!(flusher.flush(), vec![]);
    for i in 0..32 {
        flusher.push(i * 0x1000);
    }
    let requests = flusher.flush();
    // once per recorded address, in the order of recording
    assert_eq!(requests.len(), 32);
    for i in 0..32 {
        assert_eq!(requests[i], Some(i * 0x1000));
    }
    // the commit emptied the accumulator
    assert_eq!(flusher.flush(), vec![]);
    for i in 0..33 {
        flusher.push(i * 0x1000);
    }
    // one more than the threshold: everything, once
    assert_eq!(flusher.flush(), vec![None]);
    assert_eq!(flusher.flush(), vec![]);
    flusher.push(0x1000);
    flusher.fill();
    flusher.push(0x2000);
    assert_eq!(flusher.flush(), vec![None]);
}

#[test]
fn arena_frames() {
    let mut arena = FrameArena::new(8);
    let a = arena.alloc_frame().unwrap();
    let b = arena.alloc_frame().unwrap();
    assert_ne!(a, b);
    assert_eq!(a % 0x1000, 0);
    assert!(arena.is_allocated(a));
    assert!(!arena.is_allocated(a + 8));
    assert_eq!(arena.allocated(), 2);
    assert!(arena.read(a, 0).is_some());
    assert_eq!(arena.read(a, 512), None);
    assert_eq!(arena.read(a + 0x10000, 0), None);
    assert!(arena.write(a, 511, 7));
    assert!(!arena.write(a, 512, 7));
    assert_eq!(arena.read(a, 511), Some(7));
    arena.dealloc_frame(a);
    assert!(!arena.is_allocated(a));
    assert_eq!(arena.read(a, 0), None);
    assert!(!arena.write(a, 0, 1));
    // a freed frame is handed out again
    assert_eq!(arena.alloc_frame(), Some(a));
    let run = arena.alloc_frames(4, 0x4000).unwrap();
    assert_eq!(run % 0x4000, 0);
    for k in 0..4 {
        assert!(arena.is_allocated(run + k * 0x1000));
    }
    assert_eq!(arena.allocated(), 6);
    // the frame that was passed over for the alignment, and the last one
    let c = arena.alloc_frame().unwrap();
    let d = arena.alloc_frame().unwrap();
    assert_eq!((c, d), (0x3000, 0x8000));
    // the arena is full
    assert_eq!(arena.alloc_frame(), None);
    assert_eq!(arena.alloc_frames(4, 0x4000), None);
    arena.dealloc_frames(run, 4);
    assert_eq!(arena.allocated(), 4);
    // freeing what is not allocated changes nothing
    arena.dealloc_frames(run, 4);
    arena.dealloc_frame(0x123);
    assert_eq!(arena.allocated(), 4);
    arena.dealloc_frame(a);
    arena.dealloc_frame(b);
    arena.dealloc_frame(c);
    arena.dealloc_frame(d);
    assert_eq!(arena.allocated(), 0);
}

#[test]
fn arena_hands_out_the_lowest_free_frame() {
    let mut arena = FrameArena::new(8);
    assert_eq!(arena.alloc_frame(), Some(0x1000));
    assert_eq!(arena.alloc_frame(), Some(0x2000));
    assert_eq!(arena.alloc_frame(), Some(0x3000));
    for i in 0..512 {
        assert_eq!(arena.read(0x2000, i), Some(0xa5a5_a5a5_a5a5_a5a5));
    }
    arena.dealloc_frame(0x2000);
    arena.dealloc_frame(0x1000);
    assert_eq!(arena.alloc_frame(), Some(0x1000));
    assert_eq!(arena.alloc_frame(), Some(0x2000));
    assert_eq!(arena.alloc_frame(), Some(0x4000));
}

#[test]
fn arena_makes_runs_behind_what_was_used() {
    let mut arena = FrameArena::new(8);
    assert_eq!(arena.alloc_frame(), Some(0x1000));
    // the next aligned frame that was not used yet
    assert_eq!(arena.alloc_frames(2, 0x2000), Some(0x2000));
    assert_eq!(arena.read(0x3000, 511), Some(0xa5a5_a5a5_a5a5_a5a5));
    arena.dealloc_frames(0x2000, 2);
    // a run is not made of frames that were given back
    assert_eq!(arena.alloc_frames(2, 0x2000), Some(0x4000));
    // three more would pass the limit, and the frame passed over is used
    assert_eq!(arena.alloc_frames(3, 0x8000), None);
    assert_eq!(arena.alloc_frames(1, 0x1000), Some(0x8000));
    assert_eq!(arena.alloc_frames(1, 0x1000), None);
    // single frames still come from below
    assert_eq!(arena.alloc_frame(), Some(0x2000));
}
