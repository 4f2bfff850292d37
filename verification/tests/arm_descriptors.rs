use page_table_multiarch::entry::arm::A32PTE;
use page_table_multiarch::{GenericPTE, MappingFlags};

#[test]
fn test_section_descriptor() {
    let paddr = 0x4000_0000;
    let flags = MappingFlags::read() | MappingFlags::write() | MappingFlags::execute();
    let pte = A32PTE::new_section(paddr, flags);

    assert!(pte.is_present());
    assert!(pte.is_huge());
    assert_eq!(pte.paddr(), paddr);
    assert!(pte.flags().contains(MappingFlags::read()));
    assert!(pte.flags().contains(MappingFlags::write()));
}

#[test]
fn test_small_page_descriptor() {
    let paddr = 0x4000_1000;
    let flags = MappingFlags::read() | MappingFlags::write();
    let pte = A32PTE::new_small_page(paddr, flags);

    assert!(pte.is_present());
    assert!(!pte.is_huge());
    assert_eq!(pte.paddr(), paddr);
    assert!(pte.flags().contains(MappingFlags::read()));
}

#[test]
fn test_page_table_descriptor() {
    let paddr = 0x4000_0400;
    let pte = A32PTE::new_table(paddr);

    assert!(pte.is_present());
    assert!(!pte.is_huge());
    assert_eq!(pte.paddr(), paddr);
}
