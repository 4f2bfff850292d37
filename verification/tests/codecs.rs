use page_table_multiarch::entry::arm::{A32PTE, DescriptorAttr};
use page_table_multiarch::entry::loongarch64::{LA64PTE, PTEFlags};
use page_table_multiarch::entry::x86_64::{X64PTE, PTF};
use page_table_multiarch::{GenericPTE, MappingFlags};

fn flags_of(bits: usize) -> MappingFlags {
    MappingFlags::from_bits_truncate(bits)
}

#[test]
fn mapping_flags_bits() {
    assert_eq!(MappingFlags::read().bits(), 1);
    assert_eq!(MappingFlags::write().bits(), 2);
    assert_eq!(MappingFlags::execute().bits(), 4);
    assert_eq!(MappingFlags::user().bits(), 8);
    assert_eq!(MappingFlags::device().bits(), 16);
    assert_eq!(MappingFlags::uncached().bits(), 32);
    assert!(MappingFlags::empty().is_empty());
    let rw = MappingFlags::read() | MappingFlags::write();
    assert_eq!(rw.bits(), 3);
    assert_eq!(rw, MappingFlags::read().union(MappingFlags::write()));
    assert!(rw.contains(MappingFlags::read()));
    assert!(!rw.contains(MappingFlags::execute()));
    assert_eq!(MappingFlags::from_bits_truncate(0xff).bits(), 63);
}

#[test]
fn x86_encoding_is_bit_exact() {
    let rw = MappingFlags::read() | MappingFlags::write();
    // PRESENT | WRITABLE | NO_EXECUTE
    assert_eq!(X64PTE::new_page(0x1000, rw, false).raw(), 0x8000_0000_0000_1003);
    // + HUGE_PAGE
    assert_eq!(X64PTE::new_page(0x20_0000, rw, true).raw(), 0x8000_0000_0020_0083);
    // PRESENT | USER, executable
    let ux = MappingFlags::read() | MappingFlags::execute() | MappingFlags::user();
    assert_eq!(X64PTE::new_page(0x3000, ux, false).raw(), 0x3005);
    // DEVICE and UNCACHED both give NO_CACHE | WRITE_THROUGH
    let dev = MappingFlags::read() | MappingFlags::execute() | MappingFlags::device();
    assert_eq!(X64PTE::new_page(0, dev, false).raw(), 0x19);
    let uncached = MappingFlags::read() | MappingFlags::execute() | MappingFlags::uncached();
    assert_eq!(X64PTE::new_page(0, uncached, false).raw(), 0x19);
    // a table descriptor is PRESENT | WRITABLE | USER
    assert_eq!(X64PTE::new_table(0x5000).raw(), 0x5007);
    // no permission gives no flag
    assert_eq!(X64PTE::new_page(0x1000, MappingFlags::empty(), false).raw(), 0x1000);
    // the address is masked to bits 12..52
    assert_eq!(
        X64PTE::new_table(0xfff0_0000_0000_1fff).raw(),
        0x1007
    );
    assert_eq!(PTF::from(rw).bits(), 0x8000_0000_0000_0003);
    assert_eq!(MappingFlags::from(PTF::from_bits_truncate(0x7)).bits(), 0b1111);
}

#[test]
fn x86_decoding() {
    let pte = X64PTE::from_raw(0x8000_0000_dead_b087);
    assert_eq!(pte.paddr(), 0xdead_b000);
    assert!(pte.is_present());
    assert!(pte.is_huge());
    assert!(!pte.is_unused());
    assert_eq!(
        pte.flags(),
        MappingFlags::read() | MappingFlags::write() | MappingFlags::user()
    );
    assert_eq!(pte.bits(), 0x8000_0000_dead_b087);
    // not present: no permission
    assert!(X64PTE::from_raw(0x1006).flags().is_empty());
    assert!(X64PTE::empty().is_unused());
    let mut pte = X64PTE::new_page(0x1000, MappingFlags::read(), false);
    pte.set_paddr(0x7000);
    assert_eq!(pte.raw(), 0x8000_0000_0000_7001);
    pte.set_flags(MappingFlags::read() | MappingFlags::execute(), true);
    assert_eq!(pte.raw(), 0x7081);
    pte.clear();
    assert_eq!(pte.raw(), 0);
}

#[test]
fn loongarch_encoding_is_bit_exact() {
    let rw = MappingFlags::read() | MappingFlags::write();
    // V | P | W | D | NX | MATL
    assert_eq!(
        LA64PTE::new_page(0x1000, rw, false).raw(),
        0x4000_0000_0000_1193
    );
    // + GH
    assert_eq!(
        LA64PTE::new_page(0x20_0000, rw, true).raw(),
        0x4000_0000_0020_01d3
    );
    // device memory: strongly-ordered uncached, no MAT bit; execute only: NR
    let dev = MappingFlags::execute() | MappingFlags::device();
    assert_eq!(LA64PTE::new_page(0, dev, false).raw(), 0x2000_0000_0000_0081);
    // uncached: MATH; user: PLV 3
    let uu = MappingFlags::read() | MappingFlags::execute() | MappingFlags::user()
        | MappingFlags::uncached();
    assert_eq!(LA64PTE::new_page(0, uu, false).raw(), 0xad);
    // a table descriptor is the address alone
    assert_eq!(LA64PTE::new_table(0x5000).raw(), 0x5000);
    assert!(!LA64PTE::new_table(0x5000).is_present());
    assert_eq!(PTEFlags::from(rw).bits(), 0x4000_0000_0000_0193);
    assert_eq!(
        LA64PTE::from_raw(0x4000_0000_0000_1193).flags(),
        rw
    );
    assert_eq!(LA64PTE::from_raw(0x2000_0000_0000_0081).flags(), dev);
    assert_eq!(LA64PTE::from_raw(0xad).flags(), uu);
    assert_eq!(LA64PTE::from_raw(0x0000_ffff_ffff_f000).paddr(), 0x0000_ffff_ffff_f000);
    assert!(LA64PTE::empty().is_unused());
}

#[test]
fn arm_encoding_is_bit_exact() {
    let rwx = MappingFlags::read() | MappingFlags::write() | MappingFlags::execute();
    // section: type 10, normal shareable memory (TEX0 | C | B | S), AP0
    assert_eq!(A32PTE::new_section(0x4000_0000, rwx).raw(), 0x4001_140e);
    // not executable: XN in bit 4; read only: AP2 | AP0
    assert_eq!(
        A32PTE::new_section(0x4010_0000, MappingFlags::read()).raw(),
        0x4011_941e
    );
    // small page: type 11, TEX0 in bit 6, S in bit 5, XN in bit 4, AP0
    assert_eq!(
        A32PTE::new_small_page(0x4000_1000, MappingFlags::read() | MappingFlags::write()).raw(),
        0x4000_147f
    );
    // user read only small page: AP2 in bit 9, AP1, AP0; executable
    let ux = MappingFlags::read() | MappingFlags::execute() | MappingFlags::user();
    assert_eq!(A32PTE::new_small_page(0x2000, ux).raw(), 0x2e6f);
    // device memory: B alone
    let dev = MappingFlags::read() | MappingFlags::write() | MappingFlags::execute()
        | MappingFlags::device();
    assert_eq!(A32PTE::new_small_page(0, dev).raw(), 0x407);
    assert_eq!(A32PTE::new_section(0, dev).raw(), 0x406);
    // uncached: TEX0 alone
    let unc = MappingFlags::read() | MappingFlags::write() | MappingFlags::execute()
        | MappingFlags::uncached();
    assert_eq!(A32PTE::new_small_page(0, unc).raw(), 0x443);
    assert_eq!(A32PTE::new_section(0, unc).raw(), 0x1402);
    // page table: type 01 and the address in bits 10..32
    assert_eq!(A32PTE::new_table(0x4000_0400).raw(), 0x4000_0401);
    // no permission: an invalid descriptor
    assert_eq!(A32PTE::new_section(0x4000_0000, MappingFlags::empty()).raw(), 0x4000_0000);
    assert!(!A32PTE::new_section(0x4000_0000, MappingFlags::empty()).is_present());
    assert_eq!(A32PTE::new_small_page(0x1000, MappingFlags::empty()).paddr(), 0);
}

#[test]
fn arm_descriptor_kinds() {
    assert_eq!(DescriptorAttr::from_bits_retain(0b10).descriptor_type(), 0b10);
    assert!(DescriptorAttr::from_bits_retain(0b10).is_section());
    assert!(!DescriptorAttr::from_bits_retain(0b10).is_small_page());
    assert!(DescriptorAttr::from_bits_retain(0b11).is_small_page());
    assert!(DescriptorAttr::from_bits_retain(0b01).is_page_table());
    assert!(!DescriptorAttr::from_bits_retain(0).is_valid());
    assert!(DescriptorAttr::from_bits_retain(0b01).is_valid());
    let rw = MappingFlags::read() | MappingFlags::write();
    assert_eq!(DescriptorAttr::common_flags(rw), 0x1140c);
    assert_eq!(DescriptorAttr::from_mapping_flags_section(rw).bits(), 0x1141e);
    assert_eq!(DescriptorAttr::from_mapping_flags_small_page(rw).bits(), 0x47f);
    assert_eq!(DescriptorAttr::from_mapping_flags_section(MappingFlags::empty()).bits(), 0);
    assert_eq!(DescriptorAttr::to_small_page(0x1940c), 0x66c);
    assert_eq!(DescriptorAttr::from_small_page(0x66c), 0x1940c);
    assert_eq!(DescriptorAttr::from_bits_truncate(0xffff_ffff).bits(), 0x000b_ffff);
    let pte = A32PTE::new_section(0x10_0000, rw);
    assert_eq!(pte.descriptor_type(), 0b10);
    assert!(pte.is_section());
    // a section in the first megabyte is a section too
    assert!(A32PTE::new_section(0, rw).is_huge());
    assert_eq!(A32PTE::new_section(0, rw).paddr(), 0);
    assert!(A32PTE::empty().is_unused());
    assert_eq!(A32PTE::from_raw(0x1_0000_0401).raw(), 0x401);
}

#[test]
fn arm_set_paddr_and_flags() {
    let rw = MappingFlags::read() | MappingFlags::write();
    let mut pte = A32PTE::new_small_page(0x4000_1000, rw);
    pte.set_paddr(0x8000_2000);
    assert_eq!(pte.paddr(), 0x8000_2000);
    assert_eq!(pte.flags(), rw);
    pte.set_flags(MappingFlags::read(), false);
    assert_eq!(pte.paddr(), 0x8000_2000);
    assert_eq!(pte.flags(), MappingFlags::read());
    let mut section = A32PTE::new_section(0x4010_0000, rw);
    section.set_paddr(0x8020_0000);
    assert_eq!(section.paddr(), 0x8020_0000);
    assert!(section.is_huge());
    let mut table = A32PTE::new_table(0x4000_0400);
    table.set_paddr(0x4000_0800);
    assert_eq!(table.raw(), 0x4000_0801);
    let mut invalid = A32PTE::empty();
    invalid.set_paddr(0x1000);
    assert_eq!(invalid.raw(), 0);
}

fn round_trip<PTE: GenericPTE>() {
    for bits in 0..64 {
        let granted = PTE::new_page(0, flags_of(bits), false).flags();
        let again = PTE::new_page(0, granted, false);
        assert_eq!(again.flags(), granted);
        assert_eq!(again.paddr(), 0);
        assert!(!again.is_huge());
        // huge or not, and whatever the address, the permissions are the same
        assert_eq!(PTE::new_page(0x4020_0000, flags_of(bits), true).flags(), granted);
        if bits != 0 {
            assert!(again.is_present());
            assert!(PTE::new_page(0x4020_0000, flags_of(bits), true).is_huge());
            assert!(granted.contains(MappingFlags::read()) || bits & 1 == 0);
        }
    }
}

#[test]
fn decoding_inverts_encoding() {
    round_trip::<X64PTE>();
    round_trip::<LA64PTE>();
    round_trip::<A32PTE>();
}

#[test]
fn canonical_permissions() {
    // x86 always grants reading, and knows device memory as uncached
    let dev = MappingFlags::write() | MappingFlags::device();
    assert_eq!(
        X64PTE::new_page(0, dev, false).flags(),
        MappingFlags::read() | MappingFlags::write() | MappingFlags::uncached()
    );
    // LoongArch keeps all six apart
    assert_eq!(LA64PTE::new_page(0, dev, false).flags(), dev);
    // ARM always grants reading and keeps device memory
    assert_eq!(
        A32PTE::new_page(0, dev, false).flags(),
        MappingFlags::read() | MappingFlags::write() | MappingFlags::device()
    );
}

#[test]
fn loongarch_presence_is_either_bit() {
    // V alone, P alone, both, neither
    assert!(LA64PTE::from_raw(0x01).is_present());
    assert!(LA64PTE::from_raw(0x80).is_present());
    assert!(LA64PTE::from_raw(0x81).is_present());
    assert!(!LA64PTE::from_raw(0x5000).is_present());
    assert!(!LA64PTE::from_raw(0).is_present());
}
